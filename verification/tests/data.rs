use punkt::json::{is_safe_json_text, LoadError};
use punkt::TrainingData;
use rustc_serialize::json::Json;

fn english_bundle() -> String {
    let mut s = String::new();
    s.push_str("{\"abbrev_types\": [\"w.va\", \"u.s\", \"mr\", \"dr\", \"e.g\", \"inc\"],");
    s.push_str(" \"sentence_starters\": [\"among\", \"however\", \"the\"],");
    s.push_str(" \"collocations\": [[\"##number##\", \"corrections\"], [\"n.y\", \"times\"]],");
    s.push_str(" \"ortho_context\": {\"among\": 46, \"the\": 126, \"is\": 32, \"this\": 126}}");
    s
}

#[test]
fn trainer_test_data_load_from_json_test() {
    let data: TrainingData = TrainingData::from_json(&english_bundle()).unwrap();

    assert!(!data.has_no_orthographic_context());
    assert!(!data.has_no_abbrevs());
    assert!(!data.has_no_sentence_starters());
    assert!(!data.has_no_collocations());
    assert!(data.contains_sentence_starter("among"));
    assert!(data.contains_abbrev("w.va"));
    assert!(data.contains_collocation("##number##", "corrections"));
}

#[test]
fn data_test_data_load_from_json_test() {
    let data: TrainingData = TrainingData::from_json(&english_bundle()).unwrap();

    assert!(!data.has_no_orthographic_context());
    assert!(!data.has_no_abbrevs());
    assert!(!data.has_no_sentence_starters());
    assert!(!data.has_no_collocations());
    assert!(data.contains_sentence_starter("among"));
    assert!(data.contains_abbrev("w.va"));
    assert!(data.contains_collocation("##number##", "corrections"));
}

#[test]
fn new_data_is_empty() {
    let data = TrainingData::new();
    assert!(data.has_no_abbrevs());
    assert!(data.has_no_sentence_starters());
    assert!(data.has_no_collocations());
    assert!(data.has_no_orthographic_context());
    assert!(!data.contains_abbrev("mr"));
    assert!(!data.contains_collocation("a", "b"));
    assert_eq!(data.get_orthographic_context("the"), 0);
}

#[test]
fn keys_are_kept_and_looked_up_in_lower_case() {
    let mut data = TrainingData::new();
    assert!(data.insert_abbrev("Mr"));
    assert!(!data.insert_abbrev("mr"));
    assert!(data.contains_abbrev("MR"));
    assert!(data.insert_sentence_starter("However"));
    assert!(data.contains_sentence_starter("however"));
    assert!(data.insert_collocation("N.Y", "Times"));
    assert!(!data.insert_collocation("n.y", "times"));
    assert!(data.insert_collocation("n.y", "post"));
    assert!(data.contains_collocation("n.y", "TIMES"));
    assert!(data.contains_collocation("N.Y", "post"));
    assert!(!data.contains_collocation("times", "n.y"));
    assert!(data.insert_orthographic_context("The", 2));
    assert_eq!(data.get_orthographic_context("the"), 2);
    assert!(data.remove_abbrev("MR"));
    assert!(!data.remove_abbrev("mr"));
    assert!(!data.contains_abbrev("mr"));
}

#[test]
fn orthographic_context_adds_up() {
    let mut data = TrainingData::new();
    assert!(data.insert_orthographic_context("word", 0b0000_0010));
    assert!(!data.insert_orthographic_context("word", 0b0010_0000));
    assert_eq!(data.get_orthographic_context("word"), 0b0010_0010);
    assert!(!data.insert_orthographic_context("word", 0b0010_0000));
    assert_eq!(data.get_orthographic_context("word"), 0b0010_0010);
    assert_eq!(data.get_orthographic_context("other"), 0);
}

#[test]
fn bundle_is_read_member_by_member() {
    let data = TrainingData::from_json(&english_bundle()).unwrap();
    assert!(data.contains_abbrev("u.s"));
    assert!(data.contains_abbrev("E.G"));
    assert!(!data.contains_abbrev("among"));
    assert!(data.contains_sentence_starter("the"));
    assert!(!data.contains_sentence_starter("mr"));
    assert!(data.contains_collocation("n.y", "times"));
    assert!(!data.contains_collocation("corrections", "##number##"));
    assert_eq!(data.get_orthographic_context("among"), 46);
    assert_eq!(data.get_orthographic_context("is"), 32);
    assert_eq!(data.get_orthographic_context("mr"), 0);
}

#[test]
fn missing_members_count_as_empty() {
    let data = TrainingData::from_json("{\"abbrev_types\": [\"mr\"], \"comment\": 7}").unwrap();
    assert!(data.contains_abbrev("mr"));
    assert!(data.has_no_sentence_starters());
    assert!(data.has_no_collocations());
    assert!(data.has_no_orthographic_context());
    let empty = TrainingData::from_json("{}").unwrap();
    assert!(empty.has_no_abbrevs());
}

#[test]
fn elements_of_the_wrong_shape_are_passed_over() {
    let text = "{\"abbrev_types\": [\"mr\", 5, null, [\"dr\"]], \"sentence_starters\": [true, \"the\"], \"collocations\": [[\"a\", \"b\"], [\"c\"], \"d\", [\"e\", 1], [\"f\", \"g\", \"h\"]], \"ortho_context\": {\"x\": 4, \"y\": \"z\", \"big\": 256, \"neg\": -1, \"half\": 0.5}}";
    let data = TrainingData::from_json(text).unwrap();
    assert!(data.contains_abbrev("mr"));
    assert!(!data.contains_abbrev("dr"));
    assert!(data.contains_sentence_starter("the"));
    assert!(data.contains_collocation("a", "b"));
    assert!(!data.contains_collocation("e", "1"));
    assert!(!data.contains_collocation("f", "g"));
    assert!(!data.contains_collocation("g", "h"));
    assert_eq!(data.get_orthographic_context("x"), 4);
    assert_eq!(data.get_orthographic_context("y"), 0);
    assert_eq!(data.get_orthographic_context("big"), 0);
    assert_eq!(data.get_orthographic_context("neg"), 0);
    assert_eq!(data.get_orthographic_context("half"), 0);
}

#[test]
fn what_is_no_bundle_is_an_error() {
    assert_eq!(TrainingData::from_json("not json").err(), Some(LoadError::NoObject));
    assert_eq!(TrainingData::from_json("").err(), Some(LoadError::NoObject));
    assert_eq!(TrainingData::from_json("[1, 2]").err(), Some(LoadError::NoObject));
    assert_eq!(TrainingData::from_json("{\"abbrev_types\": 5}").err(), Some(LoadError::Path));
    assert_eq!(
        TrainingData::from_json("{\"sentence_starters\": {}}").err(),
        Some(LoadError::Path)
    );
    assert_eq!(
        TrainingData::from_json("{\"collocations\": \"x\"}").err(),
        Some(LoadError::Path)
    );
    assert_eq!(
        TrainingData::from_json("{\"ortho_context\": [1]}").err(),
        Some(LoadError::OrthographicContext)
    );
    assert_eq!(
        TrainingData::from_json("{\"abbrev_types\": 5, \"ortho_context\": [1]}").err(),
        Some(LoadError::Path)
    );
    assert_eq!(LoadError::NoObject.message(), "no json object found containing training data");
    assert_eq!(LoadError::Path.message(), "failed to parse expected path");
    assert_eq!(
        LoadError::OrthographicContext.message(),
        "failed to parse orthographic context section"
    );
}

#[test]
fn a_parsed_value_loads_like_its_text() {
    let value = Json::from_str(&english_bundle()).unwrap();
    let data = TrainingData::from_json_value(&value).unwrap();
    assert!(data.contains_abbrev("w.va"));
    assert_eq!(data.get_orthographic_context("the"), 126);
    let number = Json::U64(3);
    assert_eq!(TrainingData::from_json_value(&number).err(), Some(LoadError::NoObject));
}

#[test]
fn data_is_parsed_from_a_string() {
    let data: TrainingData = english_bundle().parse().unwrap();
    assert!(data.contains_abbrev("mr"));
    let failed: Result<TrainingData, &'static str> = "[]".parse();
    assert_eq!(failed.err(), Some("no json object found containing training data"));
    let wrong: Result<TrainingData, &'static str> = "{\"ortho_context\": 1}".parse();
    assert_eq!(wrong.err(), Some("failed to parse orthographic context section"));
}

#[test]
fn default_data_is_empty() {
    let data: TrainingData = Default::default();
    assert!(data.has_no_abbrevs());
    assert!(data.has_no_orthographic_context());
}

#[test]
fn lower_case_is_stable() {
    let mut data = TrainingData::new();
    data.insert_abbrev("\u{130}STANBUL");
    assert!(data.contains_abbrev("i\u{307}stanbul"));
    assert!(data.contains_abbrev("\u{130}stanbul"));
    data.insert_sentence_starter("\u{c4}RGER");
    assert!(data.contains_sentence_starter("\u{e4}rger"));
    assert!(data.contains_sentence_starter("\u{c4}rger"));
}

#[test]
fn bundle_is_written_table_by_table() {
    let mut data = TrainingData::new();
    assert_eq!(
        data.to_json(),
        "{\"abbrev_types\": [], \"sentence_starters\": [], \"collocations\": [], \"ortho_context\": {}}"
    );
    data.insert_abbrev("Mr");
    data.insert_abbrev("e.g");
    data.insert_sentence_starter("the");
    data.insert_collocation("n.y", "times");
    data.insert_collocation("##number##", "corrections");
    data.insert_collocation("n.y", "post");
    data.insert_orthographic_context("the", 126);
    data.insert_orthographic_context("a", 7);
    data.insert_orthographic_context("is", 32);
    assert_eq!(
        data.to_json(),
        "{\"abbrev_types\": [\"mr\", \"e.g\"], \"sentence_starters\": [\"the\"], \"collocations\": [[\"n.y\", \"times\"], [\"n.y\", \"post\"], [\"##number##\", \"corrections\"]], \"ortho_context\": {\"the\": 126, \"a\": 7, \"is\": 32}}"
    );
    assert_eq!(data.abbrevs(), vec!["mr".to_string(), "e.g".to_string()]);
    assert_eq!(data.sentence_starters(), vec!["the".to_string()]);
    assert_eq!(
        data.collocations(),
        vec![
            ("n.y".to_string(), "times".to_string()),
            ("n.y".to_string(), "post".to_string()),
            ("##number##".to_string(), "corrections".to_string())
        ]
    );
    assert_eq!(
        data.orthographic_contexts(),
        vec![("the".to_string(), 126), ("a".to_string(), 7), ("is".to_string(), 32)]
    );
    data.remove_abbrev("mr");
    assert_eq!(data.abbrevs(), vec!["e.g".to_string()]);
}

#[test]
fn written_bundle_is_read_back() {
    let mut data = TrainingData::new();
    data.insert_abbrev("u.s");
    data.insert_abbrev("say \"what\"");
    data.insert_abbrev("back\\slash");
    data.insert_abbrev("tab\tand\nline\u{1}");
    data.insert_abbrev("\u{e4}rger \u{1F600}");
    data.insert_sentence_starter("however");
    data.insert_sentence_starter("among");
    data.insert_collocation("##number##", "corrections");
    data.insert_collocation("n.y", "times");
    data.insert_collocation("n.y", "\"post\"");
    data.insert_orthographic_context("among", 46);
    data.insert_orthographic_context("x", 0);
    data.insert_orthographic_context("y", 255);
    data.insert_orthographic_context("z", 100);
    data.insert_orthographic_context("w", 9);
    let text = data.to_json();
    assert!(is_safe_json_text(&text));
    let back = TrainingData::from_json(&text).unwrap();
    assert!(back.same(&data));
    assert!(data.same(&back));
    assert!(back.contains_abbrev("say \"what\""));
    assert!(back.contains_abbrev("tab\tand\nline\u{1}"));
    assert_eq!(back.get_orthographic_context("y"), 255);

    let empty = TrainingData::new();
    let back = TrainingData::from_json(&empty.to_json()).unwrap();
    assert!(back.same(&empty));
    let english = TrainingData::from_json(&english_bundle()).unwrap();
    let again = TrainingData::from_json(&english.to_json()).unwrap();
    assert!(again.same(&english));
}

#[test]
fn data_is_the_same_by_its_tables() {
    let mut a = TrainingData::new();
    let mut b = TrainingData::new();
    assert!(a.same(&b));
    a.insert_abbrev("mr");
    assert!(!a.same(&b));
    b.insert_abbrev("dr");
    b.insert_abbrev("MR");
    assert!(!a.same(&b));
    a.insert_abbrev("dr");
    assert!(a.same(&b));
    a.insert_collocation("a", "b");
    b.insert_collocation("a", "c");
    assert!(!a.same(&b));
    assert!(!b.same(&a));
    a.insert_collocation("a", "c");
    b.insert_collocation("a", "b");
    assert!(a.same(&b));
    a.insert_orthographic_context("x", 2);
    b.insert_orthographic_context("x", 4);
    assert!(!a.same(&b));
    a.insert_orthographic_context("x", 4);
    b.insert_orthographic_context("x", 2);
    assert!(a.same(&b));
    a.insert_sentence_starter("then");
    assert!(!a.same(&b));
    assert!(!b.same(&a));
}

#[test]
fn text_beyond_the_limits_is_refused() {
    let deep = format!("{}{}", "[".repeat(17), "]".repeat(17));
    assert!(!is_safe_json_text(&deep));
    assert_eq!(TrainingData::from_json(&deep).err(), Some(LoadError::NoObject));
    let very_deep = "[".repeat(200000);
    assert_eq!(TrainingData::from_json(&very_deep).err(), Some(LoadError::NoObject));

    let exponent = "{\"ortho_context\": {\"a\": 1e9999999999}}";
    assert!(!is_safe_json_text(exponent));
    assert_eq!(TrainingData::from_json(exponent).err(), Some(LoadError::NoObject));
    let huge = format!("1e{}", "9".repeat(20));
    assert_eq!(TrainingData::from_json(&huge).err(), Some(LoadError::NoObject));
    let signed = "[1E-0000000001]";
    assert!(!is_safe_json_text(signed));

    let comma = "[{\"a\":{\"b\":1,},\"c\":2}]";
    assert!(!is_safe_json_text(comma));
    assert_eq!(TrainingData::from_json(comma).err(), Some(LoadError::NoObject));
    let spaced = "{\"abbrev_types\": [\"a\"], \n\t }";
    assert!(!is_safe_json_text(spaced));
    assert_eq!(TrainingData::from_json(spaced).err(), Some(LoadError::NoObject));

    let long = format!("{{\"abbrev_types\": [\"{}\"]}}", "k".repeat(4096));
    assert!(!is_safe_json_text(&long));
    assert_eq!(TrainingData::from_json(&long).err(), Some(LoadError::NoObject));
    let key = "k".repeat(4000);
    let nested = format!("{{\"{}\": {{\"{}\": {{\"x\": 1}}}}}}", key, key);
    assert!(is_safe_json_text(&nested));
    assert!(TrainingData::from_json(&nested).is_ok());
    let wide = format!("{{\"abbrev_types\": [\"{}\"]}}", "\u{e4}".repeat(2048));
    assert!(!is_safe_json_text(&wide));
    let failed: Result<TrainingData, &'static str> = deep.parse();
    assert_eq!(failed.err(), Some("no json object found containing training data"));
}

#[test]
fn text_at_the_limits_is_read() {
    let deep = format!("{{\"more\": {}{}, \"abbrev_types\": [\"mr\"]}}", "[".repeat(15), "]".repeat(15));
    assert!(is_safe_json_text(&deep));
    let data = TrainingData::from_json(&deep).unwrap();
    assert!(data.contains_abbrev("mr"));

    let exponent = "{\"ortho_context\": {\"a\": 1e-000000002, \"b\": 4}}";
    assert!(is_safe_json_text(exponent));
    let data = TrainingData::from_json(exponent).unwrap();
    assert_eq!(data.get_orthographic_context("a"), 0);
    assert_eq!(data.get_orthographic_context("b"), 4);

    let word = "k".repeat(4095);
    let long = format!("{{\"abbrev_types\": [\"{}\"]}}", word);
    assert!(is_safe_json_text(&long));
    assert!(TrainingData::from_json(&long).unwrap().contains_abbrev(&word));

    let inside = "{\"abbrev_types\": [\"a,}\", \"[[[[[[[[[[[[[[[[[[[[\", \"e12345678901\", \"q\\\"[,}\"]}";
    assert!(is_safe_json_text(inside));
    let data = TrainingData::from_json(inside).unwrap();
    assert!(data.contains_abbrev("a,}"));
    assert!(data.contains_abbrev("e12345678901"));
    assert!(data.contains_abbrev("q\"[,}"));

    assert!(is_safe_json_text(""));
    assert!(is_safe_json_text("]]]]}}}} not json"));
    assert_eq!(TrainingData::from_json("]]]]").err(), Some(LoadError::NoObject));
    assert!(is_safe_json_text(&english_bundle()));
}

#[test]
fn written_bundle_with_a_long_key_is_refused() {
    let mut data = TrainingData::new();
    data.insert_abbrev(&"x".repeat(5000));
    let text = data.to_json();
    assert!(!is_safe_json_text(&text));
    assert_eq!(TrainingData::from_json(&text).err(), Some(LoadError::NoObject));
}
