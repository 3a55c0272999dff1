use punkt::params::Standard;
use punkt::sentence::{sentence_offsets, sentences};
use punkt::{SentenceByteOffsetTokenizer, SentenceTokenizer, TrainingData};

fn english() -> TrainingData {
    let mut s = String::new();
    s.push_str("{\"abbrev_types\": [\"w.va\", \"u.s\", \"mr\", \"dr\", \"e.g\", \"inc\"],");
    s.push_str(" \"sentence_starters\": [\"among\", \"however\", \"the\"],");
    s.push_str(" \"collocations\": [[\"##number##\", \"corrections\"], [\"n.y\", \"times\"]],");
    s.push_str(" \"ortho_context\": {\"among\": 46, \"the\": 126, \"is\": 32, \"this\": 126}}");
    TrainingData::from_json(&s).unwrap()
}

fn collect(doc: &str, data: &TrainingData) -> Vec<String> {
    let mut iter = SentenceTokenizer::<Standard>::new(doc, data);
    let mut out = Vec::new();
    while let Some(s) = iter.next() {
        out.push(s);
    }
    out
}

#[test]
fn sentence_tokenizer_issue_5_test() {
    let data = english();
    let doc = "this is a great sentence! this is a sad sentence.";
    let mut iter = SentenceTokenizer::<Standard>::new(doc, &data);

    assert_eq!(iter.next().unwrap(), "this is a great sentence!");
    assert_eq!(iter.next().unwrap(), "this is a sad sentence.");
}

#[test]
fn sentence_tokenizer_issue_8_test() {
    let data = english();
    let doc = "this is a great sentence! this is a sad sentence.)...";
    let _: Vec<String> = collect(doc, &data);
}

#[test]
fn final_ellipsis_stays_with_the_last_sentence() {
    let data = english();
    let doc = "This is a great sentence! This is a sad sentence.)...";
    assert_eq!(
        collect(doc, &data),
        vec!["This is a great sentence!".to_string(), "This is a sad sentence.)...".to_string()]
    );
}

#[test]
fn known_abbreviation_ends_no_sentence() {
    let data = english();
    assert_eq!(
        collect("The U.S. is a great country.", &data),
        vec!["The U.S. is a great country.".to_string()]
    );
    let untrained = TrainingData::new();
    assert_eq!(
        collect("The U.S. is a great country.", &untrained),
        vec!["The U.S.".to_string(), "is a great country.".to_string()]
    );
}

#[test]
fn amounts_of_money_end_no_sentence() {
    let data = english();
    let doc = "I bought $5.50 worth of apples from the store. I gave them to my dog when I came home.";
    assert_eq!(
        collect(doc, &data),
        vec![
            "I bought $5.50 worth of apples from the store.".to_string(),
            "I gave them to my dog when I came home.".to_string()
        ]
    );
}

#[test]
fn two_plain_sentences_without_training() {
    let data = TrainingData::new();
    let doc = "this is a great sentence! this is a sad sentence.";
    let got = sentences::<Standard>(doc, &data);
    assert_eq!(
        got,
        vec!["this is a great sentence!".to_string(), "this is a sad sentence.".to_string()]
    );
}

#[test]
fn empty_text_has_no_sentence() {
    let data = TrainingData::new();
    assert_eq!(sentences::<Standard>("", &data).len(), 0);
    assert_eq!(sentence_offsets::<Standard>("", &data).len(), 0);
    let mut iter = SentenceByteOffsetTokenizer::<Standard>::new("", &data);
    assert_eq!(iter.next(), None);
    assert_eq!(iter.next(), None);
}

#[test]
fn white_space_alone_is_one_sentence() {
    let data = TrainingData::new();
    assert_eq!(sentences::<Standard>("  \n ", &data), vec!["  \n ".to_string()]);
}

#[test]
fn text_without_an_end_is_one_sentence() {
    let data = TrainingData::new();
    assert_eq!(sentences::<Standard>("no end in sight", &data), vec!["no end in sight".to_string()]);
    assert_eq!(sentences::<Standard>("Stop.", &data), vec!["Stop.".to_string()]);
    assert_eq!(sentence_offsets::<Standard>("Stop.", &data), vec![(0, 5)]);
}

#[test]
fn text_behind_a_bracket_is_not_lost() {
    let data = TrainingData::new();
    assert_eq!(sentences::<Standard>("Hello.)abc", &data), vec!["Hello.)abc".to_string()]);
    assert_eq!(sentence_offsets::<Standard>("Hello.)abc", &data), vec![(0, 10)]);
}

#[test]
fn a_bracket_behind_the_end_starts_the_next_sentence() {
    let data = TrainingData::new();
    assert_eq!(
        sentences::<Standard>("He said no.) Then he left.", &data),
        vec!["He said no.".to_string(), ") Then he left.".to_string()]
    );
}

#[test]
fn offsets_count_bytes() {
    let data = TrainingData::new();
    let doc = "Gr\u{fc}\u{df}e an alle! Wie geht es?";
    let got = sentence_offsets::<Standard>(doc, &data);
    assert_eq!(got, vec![(0, 16), (17, 29)]);
    assert_eq!(&doc[0..16], "Gr\u{fc}\u{df}e an alle!");
    assert_eq!(&doc[17..29], "Wie geht es?");
    let mut it = SentenceByteOffsetTokenizer::<Standard>::new(doc, &data);
    assert_eq!(it.next(), Some((0, 16)));
    assert_eq!(it.next(), Some((17, 29)));
    assert_eq!(it.next(), None);
    let mut chars = SentenceByteOffsetTokenizer::<Standard>::new(doc, &data);
    assert_eq!(chars.next_chars(), Some((0, 14)));
    assert_eq!(chars.next_chars(), Some((15, 27)));
    assert_eq!(chars.next_chars(), None);
}

#[test]
fn spans_cover_the_text_in_order() {
    let data = english();
    let doc = "Dr. Who came. He saw Mr. Smith! Did he win? Yes... he did. (Really.) The end";
    let spans = sentence_offsets::<Standard>(doc, &data);
    assert!(spans.len() >= 2);
    assert_eq!(spans[0].0, 0);
    assert_eq!(spans[spans.len() - 1].1, doc.len());
    for i in 0..spans.len() {
        assert!(spans[i].0 < spans[i].1);
        if i + 1 < spans.len() {
            assert!(spans[i].1 <= spans[i + 1].0);
            assert!(spans[i].0 < spans[i + 1].0);
            assert!(doc[spans[i].1..spans[i + 1].0].chars().all(|c| c.is_whitespace()));
        }
    }
    let again = sentence_offsets::<Standard>(doc, &data);
    assert_eq!(spans, again);
    let texts = sentences::<Standard>(doc, &data);
    assert_eq!(texts.len(), spans.len());
    for i in 0..spans.len() {
        assert_eq!(texts[i], &doc[spans[i].0..spans[i].1]);
    }
}

#[test]
fn sentence_starter_breaks_behind_an_abbreviation() {
    let data = english();
    assert_eq!(
        collect("He works at Acme Inc. The firm is old.", &data),
        vec!["He works at Acme Inc.".to_string(), "The firm is old.".to_string()]
    );
    assert_eq!(
        collect("He works at Acme Inc. and likes it.", &data),
        vec!["He works at Acme Inc. and likes it.".to_string()]
    );
}

#[test]
fn only_white_space_and_ends_stand_between_sentences() {
    let data = TrainingData::new();
    assert_eq!(
        sentences::<Standard>("Hello. ! world x", &data),
        vec!["Hello.".to_string(), "world x".to_string()]
    );
    assert_eq!(sentence_offsets::<Standard>("Hello. ! world x", &data), vec![(0, 6), (9, 16)]);
    assert_eq!(
        sentences::<Standard>("Hello. . world x", &data),
        vec!["Hello. . world x".to_string()]
    );
    assert_eq!(
        sentences::<Standard>("One.   \n Two!  Three four", &data),
        vec!["One.".to_string(), "Two!".to_string(), "Three four".to_string()]
    );
}
