use punkt::params::Standard;
use punkt::word::{is_multi_char, WordTokenizer};

#[test]
fn tokenizer_smoke_test_is_multi_char_pass() {
    let docs = vec![". . .", "..", "--", "---", ". . . . .", ".. .."];

    for d in docs.iter() {
        assert!(is_multi_char(*d, 0).is_some(), "failed {}", *d);
    }
}

#[test]
fn training_smoke_test_is_multi_char_pass() {
    let docs = vec![". . .", "..", "--", "---", ". . . . .", ".. .."];

    for d in docs.iter() {
        assert!(is_multi_char(*d, 0).is_some(), "failed {}", *d);
    }
}

#[test]
fn multi_char_is_none_for_single_marks() {
    let docs = vec!["- -", ".", ".abc", "abc", "-abc", "-.", "-.-", " ", "-  "];

    for d in docs.iter() {
        assert!(is_multi_char(*d, 0).is_none(), "failed {}", *d);
    }
}

#[test]
fn multi_char_spans() {
    assert_eq!(is_multi_char(". . .", 0), Some(". . .".to_string()));
    assert_eq!(is_multi_char("... and", 0), Some("...".to_string()));
    assert_eq!(is_multi_char(". . . and", 0), Some(". . .".to_string()));
    assert_eq!(is_multi_char("a---b", 1), Some("---".to_string()));
    assert_eq!(is_multi_char(". ", 0), None);
    assert_eq!(is_multi_char(".. ", 0), Some("..".to_string()));
}

fn words(doc: &str) -> Vec<String> {
    WordTokenizer::<Standard>::tokens(doc).iter().map(|t| t.tok().to_string()).collect()
}

#[test]
fn words_and_punctuation() {
    assert_eq!(words("Hello, world! (yes)"), vec!["hello", ",", "world", "!", "(", "yes", ")"]);
    assert_eq!(words("I bought $5.50 worth."), vec!["i", "bought", "$5.50", "worth."]);
    assert_eq!(words(""), Vec::<String>::new());
    assert_eq!(words("  \n\t "), Vec::<String>::new());
}

#[test]
fn commas_inside_numbers_stay() {
    assert_eq!(words("about 4,456,678 people"), vec!["about", "4,456,678", "people"]);
    assert_eq!(words("one,two"), vec!["one,two"]);
    assert_eq!(words("one, two"), vec!["one", ",", "two"]);
}

#[test]
fn ellipses_and_dashes_are_one_token() {
    let toks = WordTokenizer::<Standard>::tokens("wait... what -- no. . . yes");
    let texts: Vec<String> = toks.iter().map(|t| t.tok().to_string()).collect();
    assert_eq!(texts, vec!["wait", "...", "what", "--", "no", ". . .", "yes"]);
    assert!(toks[1].is_ellipsis());
    assert!(!toks[3].is_ellipsis());
    assert!(toks[5].is_ellipsis());
    assert!(!toks[0].is_ellipsis());
}

#[test]
fn line_breaks_mark_the_next_token() {
    let toks = WordTokenizer::<Standard>::tokens("one two\nthree\n\nfour");
    assert_eq!(toks.len(), 4);
    assert!(toks[0].is_newline_start());
    assert!(!toks[0].is_paragraph_start());
    assert!(!toks[1].is_newline_start());
    assert!(toks[2].is_newline_start());
    assert!(!toks[2].is_paragraph_start());
    assert!(toks[3].is_newline_start());
    assert!(toks[3].is_paragraph_start());
}

#[test]
fn scanner_yields_one_token_at_a_time() {
    let mut scanner = WordTokenizer::<Standard>::new("Mr. Smith");
    let first = scanner.next().unwrap();
    assert_eq!(first.tok(), "mr.");
    assert!(first.has_final_period());
    let second = scanner.next().unwrap();
    assert_eq!(second.tok(), "smith");
    assert!(scanner.next().is_none());
    assert!(scanner.next().is_none());
}

#[test]
fn tokens_leave_out_white_space_only() {
    let doc = "Well, (he said) \"no -- never\". . . or so; 3,5 times\n\nEnd.";
    let toks = WordTokenizer::<Standard>::tokens(doc);
    let lowered: String = doc.chars().filter(|c| !c.is_whitespace()).collect::<String>().to_lowercase();
    let joined: String = toks.iter().map(|t| t.tok().replace(" ", "")).collect();
    assert_eq!(joined, lowered);
}
