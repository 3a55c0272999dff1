//! Characters and strings: classes of characters, lower case, and byte widths.
//!
//! The Unicode classes come from the standard library. Each of them is given a
//! name here, and the contracts of the rest of the crate speak of those names.

use vstd::prelude::*;
use vstd::utf8::*;

verus! {

/// Whether `c` is white space in the sense of `char::is_whitespace`.
pub uninterp spec fn whitespace_char(c: char) -> bool;

/// Whether `c` is alphabetic in the sense of `char::is_alphabetic`.
pub uninterp spec fn alphabetic_char(c: char) -> bool;

/// Whether `c` is alphanumeric in the sense of `char::is_alphanumeric`.
pub uninterp spec fn alphanumeric_char(c: char) -> bool;

/// Whether `c` is an upper case letter in the sense of `char::is_uppercase`.
pub uninterp spec fn uppercase_char(c: char) -> bool;

/// Whether `c` is a lower case letter in the sense of `char::is_lowercase`.
pub uninterp spec fn lowercase_char(c: char) -> bool;

/// The characters that `char::to_lowercase` yields for `c`.
pub uninterp spec fn unicode_lower(c: char) -> Seq<char>;

/// `char::is_whitespace`: the result is the named class, nothing more is claimed.
pub assume_specification[ char::is_whitespace ](c: char) -> (b: bool)
    ensures
        b == whitespace_char(c),
;

/// `char::is_alphabetic`: the result is the named class, nothing more is claimed.
pub assume_specification[ char::is_alphabetic ](c: char) -> (b: bool)
    ensures
        b == alphabetic_char(c),
;

/// `char::is_alphanumeric`: the result is the named class, nothing more is claimed.
pub assume_specification[ char::is_alphanumeric ](c: char) -> (b: bool)
    ensures
        b == alphanumeric_char(c),
;

/// `char::is_uppercase`: the result is the named class, nothing more is claimed.
pub assume_specification[ char::is_uppercase ](c: char) -> (b: bool)
    ensures
        b == uppercase_char(c),
;

/// `char::is_lowercase`: the result is the named class, nothing more is claimed.
pub assume_specification[ char::is_lowercase ](c: char) -> (b: bool)
    ensures
        b == lowercase_char(c),
;

/// `String::push` appends the character to the end of the string.
pub assume_specification[ std::string::String::push ](s: &mut std::string::String, c: char)
    ensures
        final(s)@ == old(s)@.push(c),
;

/// `char::to_lowercase`, collected: the characters are the named mapping of
/// `c`, in the order in which the iterator yields them.
#[verifier::external_body]
fn unicode_lowercase(c: char) -> (r: Vec<char>)
    ensures
        r@ == unicode_lower(c),
{
    c.to_lowercase().collect()
}

/// Whether `c` is one of the ten decimal digits.
pub open spec fn is_digit(c: char) -> bool {
    '0' <= c && c <= '9'
}

/// Whether `c` is one of the ten decimal digits.
pub fn is_decimal_digit(c: char) -> (b: bool)
    ensures
        b == is_digit(c),
{
    '0' <= c && c <= '9'
}

/// Whether `c` lies in the ASCII range.
pub open spec fn is_ascii_char(c: char) -> bool {
    (c as u32) < 128
}

/// The lower case form of an ASCII character: the letters `A` to `Z` move to
/// `a` to `z`, every other character stays.
pub open spec fn ascii_lower(c: char) -> char {
    if 'A' <= c && c <= 'Z' {
        ((c as u8 + 32) as u8) as char
    } else {
        c
    }
}

/// What lower case maps one character to: by the ASCII rule inside the ASCII
/// range, by the Unicode mapping outside it.
pub open spec fn mapped(c: char) -> Seq<char> {
    if is_ascii_char(c) {
        seq![ascii_lower(c)]
    } else {
        unicode_lower(c)
    }
}

/// Whether the mapping leaves `c` as it is.
pub open spec fn is_lower(c: char) -> bool {
    mapped(c) == seq![c]
}

/// The lower case form of one character: what the mapping gives for it,
/// where the mapping leaves each of those characters as it is; else the
/// character itself. So the lower case form of a lower case form is that
/// form again.
pub open spec fn lower_char(c: char) -> Seq<char> {
    let m = mapped(c);
    if forall|i: int| 0 <= i < m.len() ==> is_lower(#[trigger] m[i]) {
        m
    } else {
        seq![c]
    }
}

/// The lower case form of a sequence of characters, character by character.
pub open spec fn lower(s: Seq<char>) -> Seq<char>
    decreases s.len(),
{
    if s.len() == 0 {
        Seq::empty()
    } else {
        lower(s.drop_last()) + lower_char(s.last())
    }
}

/// The lower case form of an ASCII character is its ASCII lower case form.
pub proof fn lemma_lower_char_ascii(c: char)
    requires
        is_ascii_char(c),
    ensures
        lower_char(c) == seq![ascii_lower(c)],
        is_ascii_char(ascii_lower(c)),
{
    let l = ascii_lower(c);
    assert(is_ascii_char(l));
    assert(ascii_lower(l) == l);
    assert(mapped(l) == seq![l]);
    let m = mapped(c);
    assert(m == seq![l]);
    assert forall|i: int| 0 <= i < m.len() implies is_lower(#[trigger] m[i]) by {
        assert(m[i] == l);
    }
}

/// Every character of the lower case form of a character is its own lower
/// case form.
pub proof fn lemma_lower_char_fixed(c: char, i: int)
    requires
        0 <= i < lower_char(c).len(),
    ensures
        lower_char(lower_char(c)[i]) == seq![lower_char(c)[i]],
{
    let m = mapped(c);
    if forall|k: int| 0 <= k < m.len() ==> is_lower(#[trigger] m[k]) {
        let d = m[i];
        assert(is_lower(d));
        let md = mapped(d);
        assert(md == seq![d]);
        assert forall|k: int| 0 <= k < md.len() implies is_lower(#[trigger] md[k]) by {
            assert(md[k] == d);
        }
    } else {
        assert(lower_char(c) == seq![c]);
        assert(lower_char(c)[i] == c);
    }
}

/// Lower case of a sequence with one more character at its end.
pub proof fn lemma_lower_push(s: Seq<char>, c: char)
    ensures
        lower(s.push(c)) == lower(s) + lower_char(c),
{
    assert(s.push(c).drop_last() =~= s);
}

/// Whether each character of `s` is its own lower case form.
pub open spec fn all_lower(s: Seq<char>) -> bool {
    forall|i: int| 0 <= i < s.len() ==> lower_char(#[trigger] s[i]) == seq![s[i]]
}

/// A sequence of characters that are their own lower case forms is its own
/// lower case form.
pub proof fn lemma_lower_of_all_lower(s: Seq<char>)
    requires
        all_lower(s),
    ensures
        lower(s) == s,
    decreases s.len(),
{
    if s.len() > 0 {
        assert forall|i: int| 0 <= i < s.drop_last().len() implies lower_char(
            #[trigger] s.drop_last()[i],
        ) == seq![s.drop_last()[i]] by {
            assert(s.drop_last()[i] == s[i]);
        }
        lemma_lower_of_all_lower(s.drop_last());
        assert(lower_char(s.last()) == seq![s.last()]);
        assert(s.drop_last() + seq![s.last()] =~= s);
    } else {
        assert(lower(s) =~= s);
    }
}

/// Each character of a lower case form is its own lower case form.
pub proof fn lemma_lower_is_all_lower(s: Seq<char>)
    ensures
        all_lower(lower(s)),
    decreases s.len(),
{
    if s.len() > 0 {
        lemma_lower_is_all_lower(s.drop_last());
        let head = lower(s.drop_last());
        let tail = lower_char(s.last());
        assert forall|i: int| 0 <= i < lower(s).len() implies lower_char(#[trigger] lower(s)[i])
            == seq![lower(s)[i]] by {
            if i < head.len() {
                assert(lower(s)[i] == head[i]);
            } else {
                assert(lower(s)[i] == tail[i - head.len()]);
                lemma_lower_char_fixed(s.last(), i - head.len());
            }
        }
    }
}

/// Lower case is idempotent: the lower case form of a lower case form is
/// that form again.
pub proof fn lemma_lower_idempotent(s: Seq<char>)
    ensures
        lower(lower(s)) == lower(s),
{
    lemma_lower_is_all_lower(s);
    lemma_lower_of_all_lower(lower(s));
}

/// Whether the mapping leaves `c` as it is.
fn is_fixed(c: char) -> (b: bool)
    ensures
        b == is_lower(c),
{
    if (c as u32) < 128 {
        let b = !('A' <= c && c <= 'Z');
        assert(b == (seq![ascii_lower(c)] == seq![c])) by {
            if !b {
                assert(seq![ascii_lower(c)][0] != seq![c][0]);
            }
        }
        b
    } else {
        let v = unicode_lowercase(c);
        let b = v.len() == 1 && v[0] == c;
        assert(b == (v@ == seq![c])) by {
            if b {
                assert(v@ =~= seq![c]);
            } else if v.len() == 1 {
                assert(v@[0] != seq![c][0]);
            } else {
                assert(v@.len() != seq![c].len());
            }
        }
        b
    }
}

/// Appends the lower case form of `c` to `out`.
pub fn push_lower(out: &mut String, c: char)
    ensures
        final(out)@ == old(out)@ + lower_char(c),
{
    if (c as u32) < 128 {
        let l = if 'A' <= c && c <= 'Z' {
            ((c as u8) + 32u8) as char
        } else {
            c
        };
        proof {
            lemma_lower_char_ascii(c);
        }
        out.push(l);
        assert(final(out)@ =~= old(out)@ + seq![l]);
    } else {
        let v = unicode_lowercase(c);
        let mut stable = true;
        let mut k: usize = 0;
        while k < v.len()
            invariant
                k <= v.len(),
                stable == (forall|i: int| 0 <= i < k ==> is_lower(#[trigger] v@[i])),
            decreases v.len() - k,
        {
            if !is_fixed(v[k]) {
                stable = false;
            }
            k += 1;
        }
        assert(v@ == mapped(c));
        if stable {
            let ghost before = out@;
            let mut i: usize = 0;
            while i < v.len()
                invariant
                    i <= v.len(),
                    out@ == before + v@.take(i as int),
                decreases v.len() - i,
            {
                out.push(v[i]);
                assert(v@.take(i as int + 1) =~= v@.take(i as int).push(v@[i as int]));
                assert(before + v@.take(i as int + 1) =~= (before + v@.take(i as int)).push(
                    v@[i as int],
                ));
                i += 1;
            }
            assert(v@.take(v.len() as int) =~= v@);
        } else {
            out.push(c);
            assert(final(out)@ =~= old(out)@ + seq![c]);
        }
    }
}

/// The lower case form of `s`, as a new string.
pub fn lowercase(s: &str) -> (r: String)
    ensures
        r@ == lower(s@),
{
    let v = chars_of(s);
    assert(v@.subrange(0, v.len() as int) =~= s@);
    lowercase_chars(&v, 0, v.len())
}

/// The lower case form of the characters of `doc` from `from` up to `to`, as a
/// new string.
pub fn lowercase_chars(doc: &Vec<char>, from: usize, to: usize) -> (r: String)
    requires
        from <= to <= doc.len(),
    ensures
        r@ == lower(doc@.subrange(from as int, to as int)),
{
    let mut r = String::new();
    let mut i: usize = from;
    while i < to
        invariant
            from <= i <= to <= doc.len(),
            r@ == lower(doc@.subrange(from as int, i as int)),
        decreases to - i,
    {
        push_lower(&mut r, doc[i]);
        proof {
            lemma_lower_push(doc@.subrange(from as int, i as int), doc@[i as int]);
            assert(doc@.subrange(from as int, i as int + 1) =~= doc@.subrange(
                from as int,
                i as int,
            ).push(doc@[i as int]));
        }
        i += 1;
    }
    r
}

/// The characters of `s`, as a vector.
pub fn chars_of(s: &str) -> (v: Vec<char>)
    ensures
        v@ == s@,
{
    let mut v: Vec<char> = Vec::new();
    for c in it: s.chars()
        invariant
            v@ == it.seq().take(it.index() as int),
    {
        v.push(c);
    }
    v
}

/// The characters of `doc` from `from` up to `to`, as a new string.
pub fn string_of(doc: &Vec<char>, from: usize, to: usize) -> (r: String)
    requires
        from <= to <= doc.len(),
    ensures
        r@ == doc@.subrange(from as int, to as int),
{
    let mut r = String::new();
    let mut i: usize = from;
    while i < to
        invariant
            from <= i <= to <= doc.len(),
            r@ == doc@.subrange(from as int, i as int),
        decreases to - i,
    {
        r.push(doc[i]);
        assert(doc@.subrange(from as int, i as int + 1) =~= doc@.subrange(
            from as int,
            i as int,
        ).push(doc@[i as int]));
        i += 1;
    }
    r
}

/// The characters of `doc` from `from` up to `to`, as a new vector.
pub fn sub_chars(doc: &Vec<char>, from: usize, to: usize) -> (r: Vec<char>)
    requires
        from <= to <= doc.len(),
    ensures
        r@ == doc@.subrange(from as int, to as int),
{
    let mut r: Vec<char> = Vec::new();
    let mut i: usize = from;
    while i < to
        invariant
            from <= i <= to <= doc.len(),
            r@ == doc@.subrange(from as int, i as int),
        decreases to - i,
    {
        r.push(doc[i]);
        assert(doc@.subrange(from as int, i as int + 1) =~= doc@.subrange(
            from as int,
            i as int,
        ).push(doc@[i as int]));
        i += 1;
    }
    r
}

/// The number of bytes that the UTF-8 encoding of `c` takes.
pub open spec fn width(c: char) -> nat {
    encode_scalar(c as u32).len()
}

/// The number of bytes that the UTF-8 encoding of `s` takes.
pub open spec fn byte_len(s: Seq<char>) -> nat {
    encode_utf8(s).len()
}

/// The number of bytes that the UTF-8 encoding of `c` takes: one to four.
pub fn utf8_width(c: char) -> (w: usize)
    ensures
        w == width(c),
        1 <= w <= 4,
{
    let v: u32 = c as u32;
    proof {
        char_is_scalar(c);
    }
    if v < 0x80 {
        1
    } else if v < 0x800 {
        2
    } else if v < 0x10000 {
        3
    } else {
        4
    }
}

/// The encoding of a concatenation is the concatenation of the encodings.
pub proof fn lemma_encode_concat(a: Seq<char>, b: Seq<char>)
    ensures
        encode_utf8(a + b) == encode_utf8(a) + encode_utf8(b),
    decreases a.len(),
{
    if a.len() == 0 {
        assert(a + b =~= b);
        assert(encode_utf8(a) + encode_utf8(b) =~= encode_utf8(b));
    } else {
        lemma_encode_concat(a.drop_first(), b);
        assert((a + b).drop_first() =~= a.drop_first() + b);
        assert((a + b)[0] == a[0]);
        assert(encode_scalar(a[0] as u32) + (encode_utf8(a.drop_first()) + encode_utf8(b))
            =~= (encode_scalar(a[0] as u32) + encode_utf8(a.drop_first())) + encode_utf8(b));
    }
}

/// The byte length of a prefix grows by the width of the next character.
pub proof fn lemma_byte_len_step(s: Seq<char>, i: int)
    requires
        0 <= i < s.len(),
    ensures
        byte_len(s.take(i + 1)) == byte_len(s.take(i)) + width(s[i]),
        1 <= width(s[i]) <= 4,
{
    let one = seq![s[i]];
    assert(s.take(i + 1) =~= s.take(i) + one);
    lemma_encode_concat(s.take(i), one);
    assert(one.drop_first() =~= Seq::<char>::empty());
    assert(encode_utf8(one) =~= encode_scalar(s[i] as u32)) by {
        reveal_with_fuel(encode_utf8, 2);
    }
    char_is_scalar(s[i]);
}

/// Byte lengths of prefixes grow with the prefix, and strictly.
pub proof fn lemma_byte_len_monotonic(s: Seq<char>, i: int, j: int)
    requires
        0 <= i <= j <= s.len(),
    ensures
        byte_len(s.take(i)) + (j - i) <= byte_len(s.take(j)),
    decreases j - i,
{
    if i < j {
        lemma_byte_len_monotonic(s, i, j - 1);
        lemma_byte_len_step(s, j - 1);
    }
}

/// The byte offset of every character boundary of `doc`: entry `i` is the
/// number of bytes that the first `i` characters take in UTF-8.
pub fn byte_offsets(doc: &Vec<char>) -> (r: Vec<usize>)
    requires
        byte_len(doc@) <= usize::MAX,
    ensures
        r.len() == doc.len() + 1,
        forall|i: int| 0 <= i <= doc.len() ==> #[trigger] r[i] == byte_len(doc@.take(i)),
{
    let mut r: Vec<usize> = Vec::new();
    r.push(0);
    assert(doc@.take(0) =~= Seq::<char>::empty());
    let mut i: usize = 0;
    let mut at: usize = 0;
    while i < doc.len()
        invariant
            i <= doc.len(),
            r.len() == i + 1,
            at == byte_len(doc@.take(i as int)),
            byte_len(doc@) <= usize::MAX,
            forall|k: int| 0 <= k <= i ==> #[trigger] r[k] == byte_len(doc@.take(k)),
        decreases doc.len() - i,
    {
        let w = utf8_width(doc[i]);
        proof {
            lemma_byte_len_step(doc@, i as int);
            lemma_byte_len_monotonic(doc@, i as int + 1, doc.len() as int);
            assert(doc@.take(doc.len() as int) =~= doc@);
        }
        at = at + w;
        r.push(at);
        i += 1;
    }
    r
}

} // verus!
