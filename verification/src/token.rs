//! Tokens: one lexical unit of a text, in lower case, with its flags and the
//! types under which the tables of the training data know it.

use vstd::prelude::*;
use vstd::string::*;
use crate::ortho::LetterCase;
use crate::text::{
    alphabetic_char, chars_of, is_decimal_digit, is_digit, lemma_lower_push, lower, lowercase_char,
    push_lower, uppercase_char,
};

verus! {

/// Whether the two strings hold the same characters.
pub fn str_eq(a: &str, b: &str) -> (r: bool)
    ensures
        r == (a@ == b@),
{
    let x = a.to_owned();
    let y = b.to_owned();
    x == y
}

/// The type of every numeric token.
pub open spec fn number_type() -> Seq<char> {
    "##number##"@
}

/// The type of every numeric token, with a period at its end.
pub open spec fn number_type_with_period() -> Seq<char> {
    "##number##."@
}

/// The two number types differ by the final period only.
pub proof fn lemma_number_types()
    ensures
        number_type_with_period() == number_type().push('.'),
        number_type().len() == 10,
        number_type_with_period().drop_last() == number_type(),
{
    reveal_strlit("##number##");
    reveal_strlit("##number##.");
    assert(number_type_with_period() =~= number_type().push('.'));
    assert(number_type_with_period().drop_last() =~= number_type());
}

/// Whether the character at `i` may stand where it does in a number: a digit
/// anywhere; a period, comma or dash once a digit was seen; a period or comma
/// among the first two characters; a dash in front.
pub open spec fn numeric_char_at(s: Seq<char>, i: int) -> bool {
    let c = s[i];
    ||| is_digit(c)
    ||| ((c == ',' || c == '.' || c == '-') && exists|j: int| 0 <= j < i && is_digit(s[j]))
    ||| ((c == ',' || c == '.') && i <= 1)
    ||| (c == '-' && i == 0)
}

/// Whether `s` is a number: it holds a digit, and each of its characters may
/// stand where it does.
pub open spec fn is_numeric_text(s: Seq<char>) -> bool {
    &&& exists|j: int| 0 <= j < s.len() && is_digit(s[j])
    &&& forall|i: int| 0 <= i < s.len() ==> numeric_char_at(s, i)
}

/// Whether `s` is an initial: one alphabetic character and a period.
pub open spec fn is_initial_text(s: Seq<char>) -> bool {
    s.len() == 2 && alphabetic_char(s[0]) && s[1] == '.'
}

/// Whether `c` counts as part of a word: alphabetic, or an underscore.
pub open spec fn word_char(c: char) -> bool {
    alphabetic_char(c) || c == '_'
}

/// What a token is: its text in lower case with a final period, and its
/// flags.
pub struct TokenView {
    /// The text in lower case; where the text had no final period, one is
    /// appended.
    pub inner: Seq<char>,
    pub has_final_period: bool,
    pub is_ellipsis: bool,
    pub is_abbrev: bool,
    pub is_sentence_break: bool,
    pub is_paragraph_start: bool,
    pub is_newline_start: bool,
    pub is_uppercase: bool,
    pub is_lowercase: bool,
    pub is_initial: bool,
    pub is_numeric: bool,
    /// Whether the text holds a character of a word. A numeric token counts
    /// as not being punctuation whatever this says: see
    /// [`TokenView::is_non_punct`].
    pub holds_word_char: bool,
    pub is_alphabetic: bool,
}

impl TokenView {
    /// The token of the text `text`, fresh from a scanner that gave it the
    /// three hints.
    pub open spec fn of_text(text: Seq<char>, is_el: bool, is_pg: bool, is_nl: bool) -> TokenView {
        let period = text.last() == '.';
        let numeric = is_numeric_text(text);
        TokenView {
            inner: if period {
                lower(text)
            } else {
                lower(text).push('.')
            },
            has_final_period: period,
            is_ellipsis: is_el,
            is_abbrev: false,
            is_sentence_break: false,
            is_paragraph_start: is_pg,
            is_newline_start: is_nl,
            is_uppercase: uppercase_char(text[0]),
            is_lowercase: !uppercase_char(text[0]) && lowercase_char(text[0]),
            is_initial: !numeric && is_initial_text(text),
            is_numeric: numeric,
            holds_word_char: exists|i: int| 0 <= i < text.len() && word_char(text[i]),
            is_alphabetic: forall|i: int|
                0 <= i < text.len() ==> word_char(text[i]) || is_digit(text[i]),
        }
    }

    /// The token in lower case.
    pub open spec fn tok(self) -> Seq<char> {
        if self.has_final_period {
            self.inner
        } else {
            self.inner.drop_last()
        }
    }

    /// The token in lower case, without its last character where it has a
    /// final period.
    pub open spec fn tok_without_period(self) -> Seq<char> {
        self.inner.drop_last()
    }

    /// The type of the token: the number type for a number, else the token in
    /// lower case.
    pub open spec fn typ(self) -> Seq<char> {
        if self.is_numeric {
            number_type()
        } else {
            self.tok()
        }
    }

    /// The type of the token with a final period.
    pub open spec fn typ_with_period(self) -> Seq<char> {
        if self.is_numeric {
            number_type_with_period()
        } else {
            self.inner
        }
    }

    /// The type of the token without its final period; a token of one
    /// character keeps it.
    pub open spec fn typ_without_period(self) -> Seq<char> {
        if self.tok().len() > 1 && self.has_final_period {
            self.typ_with_period().drop_last()
        } else {
            self.typ()
        }
    }

    /// The type of the token, without its final period where the token ends a
    /// sentence.
    pub open spec fn typ_without_break_or_period(self) -> Seq<char> {
        if self.is_sentence_break {
            self.typ_without_period()
        } else {
            self.typ()
        }
    }

    /// Whether the token is more than punctuation: it holds a character of a
    /// word, or it is a number.
    pub open spec fn is_non_punct(self) -> bool {
        self.holds_word_char || self.is_numeric
    }

    /// The case of the first character.
    pub open spec fn first_case(self) -> LetterCase {
        if self.is_uppercase {
            LetterCase::Upper
        } else if self.is_lowercase {
            LetterCase::Lower
        } else {
            LetterCase::Unknown
        }
    }

    /// The flags as bits of one number.
    pub open spec fn flags(self) -> int {
        bit_of(self.has_final_period, 0x0001) + bit_of(self.is_ellipsis, 0x0002) + bit_of(
            self.is_abbrev,
            0x0004,
        ) + bit_of(self.is_sentence_break, 0x0008) + bit_of(self.is_paragraph_start, 0x0010)
            + bit_of(self.is_newline_start, 0x0020) + bit_of(self.is_uppercase, 0x0040) + bit_of(
            self.is_lowercase,
            0x0080,
        ) + bit_of(self.is_alphabetic, 0x0400) + bit_of(self.holds_word_char, 0x2000) + bit_of(
            self.is_numeric,
            0x4000,
        ) + bit_of(self.is_initial, 0x8000)
    }

    /// What holds of every token that a scanner made and the annotators
    /// worked on: the text is not empty and ends with a period where the flag
    /// says so, upper and lower case exclude each other, and so do number and
    /// initial.
    pub open spec fn wf(self) -> bool {
        &&& self.inner.len() >= 1
        &&& self.inner.last() == '.'
        &&& !(self.is_uppercase && self.is_lowercase)
        &&& !(self.is_numeric && self.is_initial)
    }
}

/// The number `v` where `b` holds, else nothing.
#[verifier::opaque]
pub open spec fn bit_of(b: bool, v: int) -> int {
    if b {
        v
    } else {
        0
    }
}

/// The number `v` where `b` holds, else nothing.
fn bit(b: bool, v: u16) -> (r: u16)
    ensures
        r == bit_of(b, v as int),
        r <= v,
{
    reveal(bit_of);
    if b {
        v
    } else {
        0
    }
}

/// One lexical unit of a text.
pub struct Token {
    inner: String,
    len: usize,
    has_final_period: bool,
    is_ellipsis: bool,
    is_abbrev: bool,
    is_sentence_break: bool,
    is_paragraph_start: bool,
    is_newline_start: bool,
    is_uppercase: bool,
    is_lowercase: bool,
    is_initial: bool,
    is_numeric: bool,
    holds_word_char: bool,
    is_alphabetic: bool,
}

impl View for Token {
    type V = TokenView;

    closed spec fn view(&self) -> TokenView {
        TokenView {
            inner: self.inner@,
            has_final_period: self.has_final_period,
            is_ellipsis: self.is_ellipsis,
            is_abbrev: self.is_abbrev,
            is_sentence_break: self.is_sentence_break,
            is_paragraph_start: self.is_paragraph_start,
            is_newline_start: self.is_newline_start,
            is_uppercase: self.is_uppercase,
            is_lowercase: self.is_lowercase,
            is_initial: self.is_initial,
            is_numeric: self.is_numeric,
            holds_word_char: self.holds_word_char,
            is_alphabetic: self.is_alphabetic,
        }
    }
}

/// Whether the characters of `doc` from `from` up to `to` are a number.
pub fn is_numeric_range(doc: &Vec<char>, from: usize, to: usize) -> (b: bool)
    requires
        from <= to <= doc.len(),
    ensures
        b == is_numeric_text(doc@.subrange(from as int, to as int)),
{
    let ghost s = doc@.subrange(from as int, to as int);
    let mut digit_found = false;
    let mut i: usize = from;
    while i < to
        invariant
            from <= i <= to <= doc.len(),
            s == doc@.subrange(from as int, to as int),
            digit_found == (exists|j: int| 0 <= j < i - from && is_digit(s[j])),
            forall|k: int| 0 <= k < i - from ==> numeric_char_at(s, k),
        decreases to - i,
    {
        let c = doc[i];
        let ghost at = i - from;
        assert(s[at] == c);
        if is_decimal_digit(c) {
            digit_found = true;
            assert(is_digit(s[at]));
        } else if (c == ',' || c == '.' || c == '-') && digit_found {
        } else if (c == ',' || c == '.') && (i - from == 0 || i - from == 1) {
        } else if c == '-' && i - from == 0 {
        } else {
            assert(!numeric_char_at(s, at));
            return false;
        }
        assert(numeric_char_at(s, at));
        i += 1;
    }
    digit_found
}

/// Whether the characters of `doc` from `from` up to `to` are an initial.
pub fn is_initial_range(doc: &Vec<char>, from: usize, to: usize) -> (b: bool)
    requires
        from <= to <= doc.len(),
    ensures
        b == is_initial_text(doc@.subrange(from as int, to as int)),
{
    to - from == 2 && doc[from].is_alphabetic() && doc[from + 1] == '.'
}

/// Whether `tok` is a number: it holds a digit, and besides digits only
/// periods, commas and dashes, each after a digit or in front.
pub fn is_str_numeric(tok: &str) -> (b: bool)
    ensures
        b == is_numeric_text(tok@),
{
    let v = chars_of(tok);
    assert(v@.subrange(0, v.len() as int) =~= tok@);
    is_numeric_range(&v, 0, v.len())
}

/// Whether `tok` is an initial: one alphabetic character and a period.
pub fn is_str_initial(tok: &str) -> (b: bool)
    ensures
        b == is_initial_text(tok@),
{
    let v = chars_of(tok);
    assert(v@.subrange(0, v.len() as int) =~= tok@);
    is_initial_range(&v, 0, v.len())
}

impl Token {
    #[verifier::type_invariant]
    spec fn inv(self) -> bool {
        self.inner@.len() == self.len && self.len >= 1
    }

    /// The token of the text `slice`, which is not empty, with the three
    /// hints of the scanner.
    pub fn new(slice: &str, is_el: bool, is_pg: bool, is_nl: bool) -> (t: Token)
        requires
            slice@.len() > 0,
        ensures
            t@ == TokenView::of_text(slice@, is_el, is_pg, is_nl),
            t@.wf(),
    {
        let v = chars_of(slice);
        assert(v@.subrange(0, v.len() as int) =~= slice@);
        Token::from_chars(&v, 0, v.len(), is_el, is_pg, is_nl)
    }

    /// The token of the characters of `doc` from `from` up to `to`, with the
    /// three hints of the scanner.
    pub fn from_chars(
        doc: &Vec<char>,
        from: usize,
        to: usize,
        is_el: bool,
        is_pg: bool,
        is_nl: bool,
    ) -> (t: Token)
        requires
            from < to <= doc.len(),
        ensures
            t@ == TokenView::of_text(doc@.subrange(from as int, to as int), is_el, is_pg, is_nl),
            t@.wf(),
    {
        let ghost text = doc@.subrange(from as int, to as int);
        let period = doc[to - 1] == '.';
        let numeric = is_numeric_range(doc, from, to);
        let initial = !numeric && is_initial_range(doc, from, to);
        let mut inner = String::new();
        let mut holds_word_char = false;
        let mut has_punct = false;
        let mut i: usize = from;
        while i < to
            invariant
                from <= i <= to <= doc.len(),
                text == doc@.subrange(from as int, to as int),
                inner@ == lower(text.take(i - from)),
                holds_word_char == (exists|k: int| 0 <= k < i - from && word_char(text[k])),
                has_punct == (exists|k: int|
                    0 <= k < i - from && !word_char(text[k]) && !is_digit(text[k])),
            decreases to - i,
        {
            let c = doc[i];
            let ghost at = i - from;
            assert(text[at] == c);
            push_lower(&mut inner, c);
            proof {
                lemma_lower_push(text.take(at), c);
                assert(text.take(at + 1) =~= text.take(at).push(c));
            }
            if c.is_alphabetic() || c == '_' {
                holds_word_char = true;
                assert(word_char(text[at]));
            } else if !is_decimal_digit(c) {
                has_punct = true;
                assert(!word_char(text[at]) && !is_digit(text[at]));
            }
            i += 1;
        }
        assert(text.take(to - from) =~= text);
        proof {
            lemma_lower_last(text);
        }
        if !period {
            inner.push('.');
        }
        let len = inner.as_str().unicode_len();
        let first = doc[from];
        let upper = first.is_uppercase();
        let lowercase = !upper && first.is_lowercase();
        assert(text[0] == first);
        assert(text.last() == doc@[to - 1]);
        Token {
            inner,
            len,
            has_final_period: period,
            is_ellipsis: is_el,
            is_abbrev: false,
            is_sentence_break: false,
            is_paragraph_start: is_pg,
            is_newline_start: is_nl,
            is_uppercase: upper,
            is_lowercase: lowercase,
            is_initial: initial,
            is_numeric: numeric,
            holds_word_char,
            is_alphabetic: !has_punct,
        }
    }

    /// The token in lower case.
    pub fn tok(&self) -> (r: &str)
        ensures
            r@ == self@.tok(),
    {
        proof {
            use_type_invariant(self);
        }
        if self.has_final_period {
            self.inner.as_str()
        } else {
            self.inner.as_str().substring_char(0, self.len - 1)
        }
    }

    /// The token in lower case with any final period cut off.
    pub fn tok_without_period(&self) -> (r: &str)
        ensures
            r@ == self@.tok_without_period(),
    {
        proof {
            use_type_invariant(self);
        }
        self.inner.as_str().substring_char(0, self.len - 1)
    }

    /// The type of the token: `##number##` for a number, else the token in
    /// lower case.
    pub fn typ(&self) -> (r: &str)
        ensures
            r@ == self@.typ(),
            self@.is_numeric ==> r@ == "##number##"@,
    {
        if self.is_numeric {
            "##number##"
        } else {
            self.tok()
        }
    }

    /// The type of the token with a final period: `##number##.` for a number,
    /// else the token in lower case with its period, or with one appended.
    pub fn typ_with_period(&self) -> (r: &str)
        ensures
            r@ == self@.typ_with_period(),
            self@.is_numeric ==> r@ == "##number##."@,
    {
        if self.is_numeric {
            "##number##."
        } else {
            self.inner.as_str()
        }
    }

    /// The type of the token without its final period. A token that is one
    /// character long keeps it.
    pub fn typ_without_period(&self) -> (r: &str)
        ensures
            r@ == self@.typ_without_period(),
            r@.len() < usize::MAX,
    {
        proof {
            use_type_invariant(self);
            lemma_number_types();
        }
        if self.has_final_period && self.len > 1 {
            if self.is_numeric {
                "##number##"
            } else {
                self.inner.as_str().substring_char(0, self.len - 1)
            }
        } else {
            self.typ()
        }
    }

    /// The type of the token, without its final period where the token ends
    /// a sentence.
    pub fn typ_without_break_or_period(&self) -> (r: &str)
        ensures
            r@ == self@.typ_without_break_or_period(),
    {
        if self.is_sentence_break {
            self.typ_without_period()
        } else {
            self.typ()
        }
    }

    /// The case of the first character.
    pub fn first_case(&self) -> (c: LetterCase)
        ensures
            c == self@.first_case(),
    {
        if self.is_uppercase {
            LetterCase::Upper
        } else if self.is_lowercase {
            LetterCase::Lower
        } else {
            LetterCase::Unknown
        }
    }

    /// The flags as bits of one number; nothing is set on a token without
    /// flags.
    pub fn flags(&self) -> (f: u16)
        ensures
            f == self@.flags(),
    {
        let low: u16 = bit(self.has_final_period, 0x0001) + bit(self.is_ellipsis, 0x0002) + bit(
            self.is_abbrev,
            0x0004,
        ) + bit(self.is_sentence_break, 0x0008) + bit(self.is_paragraph_start, 0x0010) + bit(
            self.is_newline_start,
            0x0020,
        ) + bit(self.is_uppercase, 0x0040) + bit(self.is_lowercase, 0x0080);
        let high: u16 = bit(self.is_alphabetic, 0x0400) + bit(self.holds_word_char, 0x2000) + bit(
            self.is_numeric,
            0x4000,
        ) + bit(self.is_initial, 0x8000);
        low + high
    }

    pub fn is_uppercase(&self) -> (b: bool)
        ensures
            b == self@.is_uppercase,
    {
        self.is_uppercase
    }

    pub fn is_lowercase(&self) -> (b: bool)
        ensures
            b == self@.is_lowercase,
    {
        self.is_lowercase
    }

    pub fn is_ellipsis(&self) -> (b: bool)
        ensures
            b == self@.is_ellipsis,
    {
        self.is_ellipsis
    }

    pub fn is_abbrev(&self) -> (b: bool)
        ensures
            b == self@.is_abbrev,
    {
        self.is_abbrev
    }

    pub fn is_sentence_break(&self) -> (b: bool)
        ensures
            b == self@.is_sentence_break,
    {
        self.is_sentence_break
    }

    pub fn has_final_period(&self) -> (b: bool)
        ensures
            b == self@.has_final_period,
    {
        self.has_final_period
    }

    pub fn is_paragraph_start(&self) -> (b: bool)
        ensures
            b == self@.is_paragraph_start,
    {
        self.is_paragraph_start
    }

    pub fn is_newline_start(&self) -> (b: bool)
        ensures
            b == self@.is_newline_start,
    {
        self.is_newline_start
    }

    pub fn is_numeric(&self) -> (b: bool)
        ensures
            b == self@.is_numeric,
    {
        self.is_numeric
    }

    pub fn is_initial(&self) -> (b: bool)
        ensures
            b == self@.is_initial,
    {
        self.is_initial
    }

    /// Whether the token is more than punctuation. A number always is.
    pub fn is_non_punct(&self) -> (b: bool)
        ensures
            b == self@.is_non_punct(),
    {
        self.holds_word_char || self.is_numeric
    }

    pub fn is_alphabetic(&self) -> (b: bool)
        ensures
            b == self@.is_alphabetic,
    {
        self.is_alphabetic
    }

    pub fn set_is_ellipsis(&mut self, b: bool)
        ensures
            final(self)@ == (TokenView { is_ellipsis: b, ..old(self)@ }),
    {
        proof {
            use_type_invariant(&*self);
        }
        self.is_ellipsis = b;
    }

    pub fn set_is_abbrev(&mut self, b: bool)
        ensures
            final(self)@ == (TokenView { is_abbrev: b, ..old(self)@ }),
    {
        proof {
            use_type_invariant(&*self);
        }
        self.is_abbrev = b;
    }

    pub fn set_is_sentence_break(&mut self, b: bool)
        ensures
            final(self)@ == (TokenView { is_sentence_break: b, ..old(self)@ }),
    {
        proof {
            use_type_invariant(&*self);
        }
        self.is_sentence_break = b;
    }

    /// Sets the flag. The token in lower case follows it: with the flag
    /// cleared it loses its last character, with the flag set it has it back.
    pub fn set_has_final_period(&mut self, b: bool)
        ensures
            final(self)@ == (TokenView { has_final_period: b, ..old(self)@ }),
    {
        proof {
            use_type_invariant(&*self);
        }
        self.has_final_period = b;
    }

    pub fn set_is_paragraph_start(&mut self, b: bool)
        ensures
            final(self)@ == (TokenView { is_paragraph_start: b, ..old(self)@ }),
    {
        proof {
            use_type_invariant(&*self);
        }
        self.is_paragraph_start = b;
    }

    pub fn set_is_newline_start(&mut self, b: bool)
        ensures
            final(self)@ == (TokenView { is_newline_start: b, ..old(self)@ }),
    {
        proof {
            use_type_invariant(&*self);
        }
        self.is_newline_start = b;
    }

    /// Sets the flag; the flag for lower case stays as it is.
    pub fn set_is_uppercase(&mut self, b: bool)
        ensures
            final(self)@ == (TokenView { is_uppercase: b, ..old(self)@ }),
    {
        proof {
            use_type_invariant(&*self);
        }
        self.is_uppercase = b;
    }

    /// Sets the flag; the flag for upper case stays as it is.
    pub fn set_is_lowercase(&mut self, b: bool)
        ensures
            final(self)@ == (TokenView { is_lowercase: b, ..old(self)@ }),
    {
        proof {
            use_type_invariant(&*self);
        }
        self.is_lowercase = b;
    }

    /// Sets the flag; the flag for an initial stays as it is.
    pub fn set_is_numeric(&mut self, b: bool)
        ensures
            final(self)@ == (TokenView { is_numeric: b, ..old(self)@ }),
    {
        proof {
            use_type_invariant(&*self);
        }
        self.is_numeric = b;
    }

    /// Sets the flag; the flag for a number stays as it is.
    pub fn set_is_initial(&mut self, b: bool)
        ensures
            final(self)@ == (TokenView { is_initial: b, ..old(self)@ }),
    {
        proof {
            use_type_invariant(&*self);
        }
        self.is_initial = b;
    }

    /// Sets or clears the record that the text holds a character of a word.
    /// A number counts as more than punctuation with or without that record,
    /// and clearing it on a number that has none sets it.
    pub fn set_is_non_punct(&mut self, b: bool)
        ensures
            final(self)@ == (TokenView {
                holds_word_char: b || (old(self)@.is_numeric && !old(self)@.holds_word_char),
                ..old(self)@
            }),
    {
        proof {
            use_type_invariant(&*self);
        }
        if b {
            self.holds_word_char = true;
        } else if self.holds_word_char || self.is_numeric {
            self.holds_word_char = !self.holds_word_char;
        }
    }

    pub fn set_is_alphabetic(&mut self, b: bool)
        ensures
            final(self)@ == (TokenView { is_alphabetic: b, ..old(self)@ }),
    {
        proof {
            use_type_invariant(&*self);
        }
        self.is_alphabetic = b;
    }
}

/// The lower case form of a text that ends with a period ends with a period.
pub proof fn lemma_lower_last(text: Seq<char>)
    requires
        text.len() > 0,
    ensures
        text.last() == '.' ==> lower(text).len() >= 1 && lower(text).last() == '.',
{
}

/// Two tokens are equal where their types are.
impl PartialEq for Token {
    fn eq(&self, other: &Token) -> (r: bool) {
        str_eq(self.typ(), other.typ())
    }
}

impl Eq for Token {

}

impl vstd::std_specs::cmp::PartialEqSpecImpl for Token {
    open spec fn obeys_eq_spec() -> bool {
        true
    }

    open spec fn eq_spec(&self, other: &Token) -> bool {
        self@.typ() == other@.typ()
    }
}

/// Two tokens hash alike where their types are equal: the hash is that of
/// the type.
impl std::hash::Hash for Token {
    fn hash<H: std::hash::Hasher>(&self, state: &mut H) {
        hash_str(self.typ(), state)
    }
}

/// `Hash::hash` on `str`: feeds the string to the hasher.
#[verifier::external_body]
fn hash_str<H: std::hash::Hasher>(s: &str, state: &mut H) {
    std::hash::Hash::hash(s, state)
}

/// Every numeric token has the number type, with and without a period.
pub proof fn lemma_numeric_sentinel(t: TokenView)
    requires
        t.is_numeric,
    ensures
        t.typ() == "##number##"@,
        t.typ_with_period() == "##number##."@,
        t.typ_with_period() == t.typ().push('.'),
{
    lemma_number_types();
}

/// A token that a scanner made is well formed: its flags for upper and lower
/// case exclude each other, it is not a number and an initial at once, a
/// number is more than punctuation, and it has a final period exactly where
/// its text ends with one.
pub proof fn lemma_fresh_token_invariants(text: Seq<char>, is_el: bool, is_pg: bool, is_nl: bool)
    requires
        text.len() > 0,
    ensures
        ({
            let t = TokenView::of_text(text, is_el, is_pg, is_nl);
            &&& t.wf()
            &&& !(t.is_uppercase && t.is_lowercase)
            &&& !(t.is_numeric && t.is_initial)
            &&& (t.is_numeric ==> t.is_non_punct())
            &&& (t.has_final_period <==> text.last() == '.')
            &&& t.has_final_period ==> t.tok().last() == '.'
        }),
{
    lemma_lower_last(text);
}

} // verus!
