use punkt::params::Standard;
use punkt::periodctxt::{PeriodContextTokenizer, Region};

fn regions(doc: &str) -> Vec<(String, Region)> {
    let mut scanner = PeriodContextTokenizer::<Standard>::new(doc);
    let mut out = Vec::new();
    while let Some(r) = scanner.next() {
        out.push((scanner.slice(&r), r));
    }
    assert!(scanner.is_exhausted());
    out
}

#[test]
fn region_reaches_from_the_word_to_the_next_token() {
    let found = regions("One two. Three four. Five six");
    assert_eq!(found.len(), 2);
    assert_eq!(found[0].0, "two. Three");
    assert_eq!(found[0].1, Region { start: 4, next_tok_start: 9, ws_start: 8, end: 14 });
    assert_eq!(found[1].0, "four. Five");
    assert_eq!(found[1].1, Region { start: 15, next_tok_start: 21, ws_start: 20, end: 25 });
}

#[test]
fn last_region_needs_white_space_behind_its_token() {
    let found = regions("One two. Three four. Five");
    assert_eq!(found.len(), 1);
    assert_eq!(found[0].0, "two. Three");
}

#[test]
fn text_without_white_space_behind_the_end_has_no_region() {
    assert_eq!(regions("no end").len(), 0);
    assert_eq!(regions("ends here.").len(), 0);
    assert_eq!(regions("3.14 is pi").len(), 0);
    assert_eq!(regions("").len(), 0);
}

#[test]
fn bracket_behind_the_end_closes_the_region() {
    let found = regions("He said no.) Then");
    assert_eq!(found.len(), 1);
    assert_eq!(found[0].0, "no.)");
    assert_eq!(found[0].1.next_tok_start, found[0].1.end);
    assert_eq!(found[0].1.end, 12);
}

#[test]
fn scan_skips_to_the_next_end_behind_a_bracket() {
    let found = regions("Hello.)abc. Next one");
    assert_eq!(found.len(), 1);
    assert_eq!(found[0].0, "Hello.)abc. Next");
    assert_eq!(found[0].1, Region { start: 0, next_tok_start: 12, ws_start: 11, end: 16 });
}

#[test]
fn token_with_an_end_in_it_is_scanned_again() {
    let found = regions("a. b. c d");
    assert_eq!(found.len(), 2);
    assert_eq!(found[0].0, "a. b.");
    assert_eq!(found[0].1, Region { start: 0, next_tok_start: 3, ws_start: 2, end: 5 });
    assert_eq!(found[1].0, "b. c");
    assert_eq!(found[1].1, Region { start: 3, next_tok_start: 6, ws_start: 5, end: 7 });
}

#[test]
fn positions_count_characters() {
    let found = regions("\u{e9}t\u{e9}. \u{c0} bient\u{f4}t");
    assert_eq!(found.len(), 1);
    assert_eq!(found[0].0, "\u{e9}t\u{e9}. \u{c0}");
    assert_eq!(found[0].1, Region { start: 0, next_tok_start: 5, ws_start: 4, end: 6 });
}
