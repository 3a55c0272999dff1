use std::collections::HashSet;

use punkt::ortho::LetterCase;
use punkt::token::{is_str_initial, is_str_numeric, Token};

#[test]
fn test_token_flags() {
    let mut tok = Token::new("test", false, false, false);

    tok.set_is_non_punct(false);
    tok.set_is_lowercase(false);
    tok.set_is_alphabetic(false);

    assert_eq!(tok.flags(), 0);

    tok.set_is_ellipsis(true);
    assert!(tok.is_ellipsis());
    tok.set_is_ellipsis(false);
    assert!(!tok.is_ellipsis());

    tok.set_is_abbrev(true);
    assert!(tok.is_abbrev());
    tok.set_is_abbrev(false);
    assert!(!tok.is_abbrev());

    tok.set_has_final_period(true);
    assert!(tok.has_final_period());
    tok.set_has_final_period(false);
    assert!(!tok.has_final_period());

    tok.set_is_paragraph_start(true);
    assert!(tok.is_paragraph_start());
    tok.set_is_paragraph_start(false);
    assert!(!tok.is_paragraph_start());

    tok.set_is_newline_start(true);
    assert!(tok.is_newline_start());
    tok.set_is_newline_start(false);
    assert!(!tok.is_newline_start());

    tok.set_is_uppercase(true);
    assert!(tok.is_uppercase());
    tok.set_is_uppercase(false);
    assert!(!tok.is_uppercase());

    tok.set_is_lowercase(true);
    assert!(tok.is_lowercase());
    tok.set_is_lowercase(false);
    assert!(!tok.is_lowercase());

    tok.set_is_numeric(true);
    assert!(tok.is_numeric());
    tok.set_is_numeric(false);
    assert!(!tok.is_numeric());

    tok.set_is_initial(true);
    assert!(tok.is_initial());
    tok.set_is_initial(false);
    assert!(!tok.is_initial());

    tok.set_is_non_punct(true);
    assert!(tok.is_non_punct());
    tok.set_is_non_punct(false);
    assert!(!tok.is_non_punct());

    tok.set_is_alphabetic(true);
    assert!(tok.is_alphabetic());
    tok.set_is_alphabetic(false);
    assert!(!tok.is_alphabetic());
}

#[test]
fn test_training_token_flags() {
    let mut tok = Token::new("test", false, false, false);

    tok.set_is_non_punct(false);
    tok.set_is_lowercase(false);
    tok.set_is_alphabetic(false);

    assert_eq!(tok.flags(), 0);

    tok.set_is_ellipsis(true);
    assert!(tok.is_ellipsis());
    tok.set_is_ellipsis(false);
    assert!(!tok.is_ellipsis());

    tok.set_is_abbrev(true);
    assert!(tok.is_abbrev());
    tok.set_is_abbrev(false);
    assert!(!tok.is_abbrev());

    tok.set_has_final_period(true);
    assert!(tok.has_final_period());
    tok.set_has_final_period(false);
    assert!(!tok.has_final_period());

    tok.set_is_paragraph_start(true);
    assert!(tok.is_paragraph_start());
    tok.set_is_paragraph_start(false);
    assert!(!tok.is_paragraph_start());

    tok.set_is_newline_start(true);
    assert!(tok.is_newline_start());
    tok.set_is_newline_start(false);
    assert!(!tok.is_newline_start());

    tok.set_is_uppercase(true);
    assert!(tok.is_uppercase());
    tok.set_is_uppercase(false);
    assert!(!tok.is_uppercase());

    tok.set_is_lowercase(true);
    assert!(tok.is_lowercase());
    tok.set_is_lowercase(false);
    assert!(!tok.is_lowercase());

    tok.set_is_numeric(true);
    assert!(tok.is_numeric());
    tok.set_is_numeric(false);
    assert!(!tok.is_numeric());

    tok.set_is_initial(true);
    assert!(tok.is_initial());
    tok.set_is_initial(false);
    assert!(!tok.is_initial());

    tok.set_is_non_punct(true);
    assert!(tok.is_non_punct());
    tok.set_is_non_punct(false);
    assert!(!tok.is_non_punct());

    tok.set_is_alphabetic(true);
    assert!(tok.is_alphabetic());
    tok.set_is_alphabetic(false);
    assert!(!tok.is_alphabetic());
}

#[test]
fn smoke_test_is_numeric_true() {
    let nums = vec!["3.4", "-,4.5", "-4-5", "-4,567.487", "4,456,678", "4.4.4.4.10", "11"];

    for n in nums.iter() {
        assert!(is_str_numeric(*n), "failed {}", *n);
    }
}

#[test]
fn smoke_test_is_numeric_false() {
    let nums = vec!["hello", "4,a", "4.a.C", "5-A", "-5-AB", "-5,b", ","];

    for n in nums.iter() {
        assert!(!is_str_numeric(*n), "failed {}", *n);
    }
}

#[test]
fn smoke_test_set_abbrev() {
    let mut tok = Token::new("hello", false, false, false);

    assert!(!tok.is_abbrev());

    tok.set_is_abbrev(true);

    assert!(tok.is_abbrev());

    tok.set_is_abbrev(false);

    assert!(!tok.is_abbrev());
}

#[test]
fn smoke_test_flags() {
    let tok = Token::new("Test.", false, false, false);

    assert!(!tok.is_abbrev());
    assert!(!tok.is_initial());
    assert!(tok.is_uppercase());
    assert!(!tok.is_lowercase());
    assert!(tok.has_final_period());
    assert!(tok.is_non_punct());
}

#[test]
fn smoke_test_is_alphabetic_pass() {
    let toks = vec!["abc", "hello", "CaSeS", "TEST", "OkAy"];

    for t in toks.iter() {
        let pt = Token::new(*t, false, false, false);

        assert!(pt.is_alphabetic());
    }
}

#[test]
fn smoke_test_is_alphabetic_fail() {
    let toks = vec!["abc!", "test11!", "dashed-token", "nOn!!"];

    for t in toks.iter() {
        let pt = Token::new(*t, false, false, false);

        assert!(!pt.is_alphabetic(), "failed: {}", t);
    }
}

#[test]
fn types_of_a_word_with_a_period() {
    let tok = Token::new("Mr.", false, false, false);
    assert_eq!(tok.tok(), "mr.");
    assert_eq!(tok.tok_without_period(), "mr");
    assert_eq!(tok.typ(), "mr.");
    assert_eq!(tok.typ_with_period(), "mr.");
    assert_eq!(tok.typ_without_period(), "mr");
    assert_eq!(tok.typ_without_break_or_period(), "mr.");
    assert_eq!(tok.first_case(), LetterCase::Upper);
}

#[test]
fn types_of_a_word_without_a_period() {
    let mut tok = Token::new("Hello", false, true, true);
    assert_eq!(tok.tok(), "hello");
    assert_eq!(tok.tok_without_period(), "hello");
    assert_eq!(tok.typ(), "hello");
    assert_eq!(tok.typ_with_period(), "hello.");
    assert_eq!(tok.typ_without_period(), "hello");
    assert!(tok.is_paragraph_start());
    assert!(tok.is_newline_start());
    assert!(!tok.has_final_period());
    tok.set_is_sentence_break(true);
    assert_eq!(tok.typ_without_break_or_period(), "hello");
}

#[test]
fn sentence_break_cuts_the_period_off_the_type() {
    let mut tok = Token::new("end.", false, false, false);
    assert_eq!(tok.typ_without_break_or_period(), "end.");
    tok.set_is_sentence_break(true);
    assert_eq!(tok.typ_without_break_or_period(), "end");
}

#[test]
fn a_single_period_keeps_its_period() {
    let tok = Token::new(".", false, false, false);
    assert_eq!(tok.tok(), ".");
    assert_eq!(tok.typ_without_period(), ".");
    assert_eq!(tok.typ_with_period(), ".");
    assert_eq!(tok.first_case(), LetterCase::Unknown);
    assert!(!tok.is_non_punct());
}

#[test]
fn numbers_have_the_number_type() {
    let plain = Token::new("5.50", false, false, false);
    assert!(plain.is_numeric());
    assert!(!plain.is_initial());
    assert!(plain.is_non_punct());
    assert_eq!(plain.typ(), "##number##");
    assert_eq!(plain.typ_with_period(), "##number##.");
    assert_eq!(plain.typ_without_period(), "##number##");
    assert_eq!(plain.tok(), "5.50");

    let ended = Token::new("1999.", false, false, false);
    assert!(ended.is_numeric());
    assert!(ended.has_final_period());
    assert_eq!(ended.typ(), "##number##");
    assert_eq!(ended.typ_with_period(), "##number##.");
    assert_eq!(ended.typ_without_period(), "##number##");
    assert_eq!(ended.tok_without_period(), "1999");
}

#[test]
fn initials_are_one_letter_and_a_period() {
    assert!(is_str_initial("A."));
    assert!(is_str_initial("\u{e9}."));
    assert!(!is_str_initial("A"));
    assert!(!is_str_initial("AB."));
    assert!(!is_str_initial("1."));
    assert!(!is_str_initial("A.."));
    let tok = Token::new("J.", false, false, false);
    assert!(tok.is_initial());
    assert!(!tok.is_numeric());
}

#[test]
fn lower_case_goes_beyond_ascii() {
    let tok = Token::new("\u{c4}RGER", false, false, false);
    assert_eq!(tok.tok(), "\u{e4}rger");
    assert!(tok.is_uppercase());
    assert!(tok.is_alphabetic());
    let dotted = Token::new("\u{130}", false, false, false);
    assert_eq!(dotted.tok(), "i\u{307}");
}

#[test]
fn flags_are_packed_bit_by_bit() {
    let tok = Token::new("test", false, false, false);
    assert_eq!(tok.flags(), 0x0080 + 0x0400 + 0x2000);
    let tok = Token::new("A.", true, true, true);
    assert_eq!(tok.flags(), 0x0001 + 0x0002 + 0x0010 + 0x0020 + 0x0040 + 0x2000 + 0x8000);
}

#[test]
fn clearing_the_word_record_of_a_number_sets_it() {
    let mut tok = Token::new("42", false, false, false);
    assert!(tok.is_non_punct());
    assert_eq!(tok.flags() & 0x2000, 0);
    tok.set_is_non_punct(false);
    assert_eq!(tok.flags() & 0x2000, 0x2000);
    assert!(tok.is_non_punct());
}

#[test]
fn tokens_are_equal_by_type() {
    let a = Token::new("Hello", false, false, false);
    let b = Token::new("hello", true, false, true);
    let c = Token::new("hello.", false, false, false);
    let n = Token::new("12", false, false, false);
    let m = Token::new("3,456", false, false, false);
    assert!(a == b);
    assert!(a != c);
    assert!(n == m);
}

#[test]
fn tokens_hash_by_type() {
    let mut seen: HashSet<Token> = HashSet::new();
    assert!(seen.insert(Token::new("Hello", false, false, false)));
    assert!(!seen.insert(Token::new("hello", true, true, true)));
    assert!(seen.insert(Token::new("hello.", false, false, false)));
    assert!(seen.insert(Token::new("12", false, false, false)));
    assert!(!seen.insert(Token::new("3.5", false, false, false)));
    assert_eq!(seen.len(), 3);
}
