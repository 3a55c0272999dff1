//! The word scanner: cuts a text into tokens, taking ellipses and runs of
//! dashes as one token each, and keeping commas out of the words before them.

use std::marker::PhantomData;
use vstd::prelude::*;
use crate::params::{DefinesNonPrefixCharacters, DefinesNonWordCharacters};
use crate::text::{alphanumeric_char, chars_of, string_of, whitespace_char};
use crate::token::{Token, TokenView};

verus! {

/// Whether `c` after `prv` goes on with a run of dashes or with an ellipsis:
/// a dash after a dash, a period after a period or a space, a space after a
/// period.
pub open spec fn continues(prv: char, c: char) -> bool {
    (c == '-' && prv == '-') || (c == '.' && (prv == '.' || prv == ' ')) || (c == ' ' && prv
        == '.')
}

/// Where the run that reaches up to `end` stops.
pub open spec fn run_end(s: Seq<char>, end: int) -> int
    decreases s.len() - end,
{
    if 0 < end < s.len() && continues(s[end - 1], s[end]) {
        run_end(s, end + 1)
    } else {
        end
    }
}

/// Where the multi-character token that starts at `start` ends: the run of
/// dashes, or of periods and single spaces, without a space at its end, if
/// that is two characters long or more.
pub open spec fn multi_char_end(s: Seq<char>, start: int) -> Option<int> {
    let e = run_end(s, start + 1);
    let t = if s[e - 1] == ' ' {
        e - 1
    } else {
        e
    };
    if t - start > 1 {
        Some(t)
    } else {
        None
    }
}

/// The run from `start` stops at `e`: it goes on up to there and no further.
pub open spec fn is_run(s: Seq<char>, start: int, e: int) -> bool {
    &&& start < e <= s.len()
    &&& forall|i: int| start < i < e ==> continues(#[trigger] s[i - 1], s[i])
    &&& (e < s.len() ==> !continues(s[e - 1], s[e]))
}

/// `run_end` gives the one place at which the run from `start` stops.
pub proof fn lemma_run_end(s: Seq<char>, start: int, at: int)
    requires
        0 <= start < at <= s.len(),
        forall|i: int| start < i < at ==> continues(#[trigger] s[i - 1], s[i]),
    ensures
        is_run(s, start, run_end(s, at)),
        at <= run_end(s, at),
    decreases s.len() - at,
{
    if at < s.len() && continues(s[at - 1], s[at]) {
        assert forall|i: int| start < i < at + 1 implies continues(#[trigger] s[i - 1], s[i]) by {
            if i == at {
            }
        }
        lemma_run_end(s, start, at + 1);
    }
}

/// Whether `c` after `prv` goes on with a run of dashes or with an ellipsis.
fn goes_on(prv: char, c: char) -> (b: bool)
    ensures
        b == continues(prv, c),
{
    (c == '-' && prv == '-') || (c == '.' && (prv == '.' || prv == ' ')) || (c == ' ' && prv == '.')
}

/// Finds the end of the multi-character token that starts at `start`, if
/// one starts there.
pub fn find_multi_char(doc: &Vec<char>, start: usize) -> (r: Option<usize>)
    requires
        start < doc.len(),
    ensures
        match multi_char_end(doc@, start as int) {
            Some(e) => r == Some(e as usize) && start + 2 <= e <= doc.len(),
            None => r is None,
        },
        is_run(doc@, start as int, run_end(doc@, start + 1)),
{
    let mut end: usize = start + 1;
    proof {
        lemma_run_end(doc@, start as int, start + 1);
    }
    while end < doc.len() && goes_on(doc[end - 1], doc[end])
        invariant
            start < end <= doc.len(),
            run_end(doc@, end as int) == run_end(doc@, start + 1),
        decreases doc.len() - end,
    {
        end += 1;
    }
    if doc[end - 1] == ' ' {
        end -= 1;
    }
    if end - start > 1 {
        Some(end)
    } else {
        None
    }
}

/// The multi-character token that starts at the character `start` of `doc`:
/// an ellipsis (`...`, `. . .`) or a run of dashes (`--`).
pub fn is_multi_char(doc: &str, start: usize) -> (r: Option<String>)
    requires
        start < doc@.len(),
    ensures
        match multi_char_end(doc@, start as int) {
            Some(e) => r matches Some(s) && s@ == doc@.subrange(start as int, e),
            None => r is None,
        },
{
    let v = chars_of(doc);
    match find_multi_char(&v, start) {
        Some(e) => Some(string_of(&v, start, e)),
        None => None,
    }
}

/// A token as the scanner found it: where it starts and ends, where the
/// scan goes on, and the three hints for the token.
pub struct WordSpan {
    pub start: int,
    pub end: int,
    pub next: int,
    pub is_ellipsis: bool,
    pub paragraph_start: bool,
    pub newline_start: bool,
}

/// The state of the word scanner between two characters.
pub struct WordState {
    /// Where the token that is being captured starts.
    pub start: int,
    /// A line break was seen, or the scan began at the start of the text.
    pub newline: bool,
    /// A second line break was seen.
    pub paragraph: bool,
    /// A token is being captured.
    pub capture: bool,
    /// The captured token has a comma at its end so far.
    pub comma: bool,
}

/// The state in which a scan from `pos` begins.
pub open spec fn initial_state(pos: int) -> WordState {
    WordState { start: pos, newline: pos == 0, paragraph: false, capture: false, comma: false }
}

/// The captured token, ended before `pos`; a comma at its end stays out and
/// is scanned again.
pub open spec fn captured(st: WordState, pos: int) -> WordSpan {
    let end = if st.comma {
        pos - 1
    } else {
        pos
    };
    WordSpan {
        start: st.start,
        end,
        next: end,
        is_ellipsis: false,
        paragraph_start: st.paragraph,
        newline_start: st.newline,
    }
}

/// The next token of `s` for a scanner that stands at `pos` in state `st`;
/// `None` where the text ends first.
pub open spec fn word_scan<P: DefinesNonPrefixCharacters + DefinesNonWordCharacters>(
    s: Seq<char>,
    pos: int,
    st: WordState,
) -> Option<WordSpan>
    decreases s.len() - pos,
{
    if pos >= s.len() {
        if st.capture {
            Some(captured(st, pos))
        } else {
            None
        }
    } else {
        let c = s[pos];
        let multi = if c == '.' || c == '-' {
            multi_char_end(s, pos)
        } else {
            None
        };
        if let Some(e) = multi {
            if st.capture {
                Some(captured(st, pos))
            } else {
                Some(
                    WordSpan {
                        start: pos,
                        end: e,
                        next: e,
                        is_ellipsis: s[e - 1] == '.',
                        paragraph_start: st.paragraph,
                        newline_start: st.newline,
                    },
                )
            }
        } else if st.capture {
            if whitespace_char(c) || P::nonword_chars().contains(c) {
                Some(captured(st, pos))
            } else {
                word_scan::<P>(
                    s,
                    pos + 1,
                    WordState { comma: !alphanumeric_char(c) && c == ',', ..st },
                )
            }
        } else if !whitespace_char(c) && !P::nonprefix_chars().contains(c) {
            word_scan::<P>(s, pos + 1, WordState { start: pos, capture: true, ..st })
        } else if !whitespace_char(c) {
            Some(
                WordSpan {
                    start: pos,
                    end: pos + 1,
                    next: pos + 1,
                    is_ellipsis: false,
                    paragraph_start: st.paragraph,
                    newline_start: st.newline,
                },
            )
        } else if c == '\n' {
            if !st.newline {
                word_scan::<P>(s, pos + 1, WordState { newline: true, ..st })
            } else {
                word_scan::<P>(s, pos + 1, WordState { paragraph: true, ..st })
            }
        } else {
            word_scan::<P>(s, pos + 1, st)
        }
    }
}

/// The next token of `s` for a scanner that stands at `pos`.
pub open spec fn next_word<P: DefinesNonPrefixCharacters + DefinesNonWordCharacters>(
    s: Seq<char>,
    pos: int,
) -> Option<WordSpan> {
    word_scan::<P>(s, pos, initial_state(pos))
}

/// The token that the span `w` cuts out of `s`.
pub open spec fn token_of(s: Seq<char>, w: WordSpan) -> TokenView {
    TokenView::of_text(s.subrange(w.start, w.end), w.is_ellipsis, w.paragraph_start, w.newline_start)
}

/// Whether the state `st` can be that of a scan that began at `from` and
/// stands at `pos`: a captured token began at or after `from` and before
/// `pos`, and a comma at its end is not its first character.
pub open spec fn state_fits(st: WordState, from: int, pos: int) -> bool {
    &&& (st.capture ==> from <= st.start < pos)
    &&& (st.comma ==> st.capture && st.start < pos - 1)
}

/// Every token that the scanner finds is not empty, lies within the text
/// from where the scan began, and the scan goes on behind where it began.
pub proof fn lemma_word_scan_bounds<P: DefinesNonPrefixCharacters + DefinesNonWordCharacters>(
    s: Seq<char>,
    from: int,
    pos: int,
    st: WordState,
)
    requires
        0 <= from <= pos <= s.len(),
        state_fits(st, from, pos),
    ensures
        word_scan::<P>(s, pos, st) matches Some(w) ==> from <= w.start < w.end <= w.next
            <= s.len() && from < w.next,
    decreases s.len() - pos,
{
    if pos < s.len() {
        let c = s[pos];
        let multi = if c == '.' || c == '-' {
            multi_char_end(s, pos)
        } else {
            None
        };
        if let Some(e) = multi {
            lemma_run_end(s, pos, pos + 1);
        } else if st.capture {
            if whitespace_char(c) || P::nonword_chars().contains(c) {
            } else {
                lemma_word_scan_bounds::<P>(
                    s,
                    from,
                    pos + 1,
                    WordState { comma: !alphanumeric_char(c) && c == ',', ..st },
                );
            }
        } else if !whitespace_char(c) && !P::nonprefix_chars().contains(c) {
            lemma_word_scan_bounds::<P>(
                s,
                from,
                pos + 1,
                WordState { start: pos, capture: true, ..st },
            );
        } else if !whitespace_char(c) {
        } else if c == '\n' {
            if !st.newline {
                lemma_word_scan_bounds::<P>(s, from, pos + 1, WordState { newline: true, ..st });
            } else {
                lemma_word_scan_bounds::<P>(s, from, pos + 1, WordState { paragraph: true, ..st });
            }
        } else {
            lemma_word_scan_bounds::<P>(s, from, pos + 1, st);
        }
    }
}

/// All tokens of `s` from `pos` on, in the order of the text.
pub open spec fn words_from<P: DefinesNonPrefixCharacters + DefinesNonWordCharacters>(
    s: Seq<char>,
    pos: int,
) -> Seq<WordSpan>
    decreases s.len() - pos,
{
    if 0 <= pos <= s.len() {
        match next_word::<P>(s, pos) {
            Some(w) => if pos < w.next <= s.len() {
                seq![w] + words_from::<P>(s, w.next)
            } else {
                seq![w]
            },
            None => Seq::empty(),
        }
    } else {
        Seq::empty()
    }
}

/// Whether all characters of `s` from `from` up to `to` are white space.
pub open spec fn blank(s: Seq<char>, from: int, to: int) -> bool {
    forall|p: int| from <= p < to ==> whitespace_char(#[trigger] s[p])
}

/// Whether a scan that began at `from`, stands at `pos` and is in state `st`
/// has passed over white space only, but for the token that it captures.
pub open spec fn passed_blank(s: Seq<char>, st: WordState, from: int, pos: int) -> bool {
    if st.capture {
        blank(s, from, st.start)
    } else {
        blank(s, from, pos)
    }
}

/// The scanner passes over nothing but white space: the text between the
/// place where the scan began and the token that it finds is white space, the
/// scan goes on where that token ends, and where it finds no token, the rest
/// of the text is white space.
pub proof fn lemma_word_scan_gap<P: DefinesNonPrefixCharacters + DefinesNonWordCharacters>(
    s: Seq<char>,
    from: int,
    pos: int,
    st: WordState,
)
    requires
        0 <= from <= pos <= s.len(),
        state_fits(st, from, pos),
        passed_blank(s, st, from, pos),
    ensures
        match word_scan::<P>(s, pos, st) {
            Some(w) => blank(s, from, w.start) && w.next == w.end,
            None => blank(s, from, s.len() as int),
        },
    decreases s.len() - pos,
{
    if pos < s.len() {
        let c = s[pos];
        let multi = if c == '.' || c == '-' {
            multi_char_end(s, pos)
        } else {
            None
        };
        if let Some(e) = multi {
        } else if st.capture {
            if whitespace_char(c) || P::nonword_chars().contains(c) {
            } else {
                lemma_word_scan_gap::<P>(
                    s,
                    from,
                    pos + 1,
                    WordState { comma: !alphanumeric_char(c) && c == ',', ..st },
                );
            }
        } else if !whitespace_char(c) && !P::nonprefix_chars().contains(c) {
            lemma_word_scan_gap::<P>(
                s,
                from,
                pos + 1,
                WordState { start: pos, capture: true, ..st },
            );
        } else if !whitespace_char(c) {
        } else if c == '\n' {
            if !st.newline {
                lemma_word_scan_gap::<P>(s, from, pos + 1, WordState { newline: true, ..st });
            } else {
                lemma_word_scan_gap::<P>(s, from, pos + 1, WordState { paragraph: true, ..st });
            }
        } else {
            lemma_word_scan_gap::<P>(s, from, pos + 1, st);
        }
    }
}

/// The tokens of a text leave out nothing but white space: every character
/// behind the place where the scan began is white space or lies in a token.
pub proof fn lemma_words_cover<P: DefinesNonPrefixCharacters + DefinesNonWordCharacters>(
    s: Seq<char>,
    pos: int,
)
    requires
        0 <= pos <= s.len(),
    ensures
        forall|p: int|
            pos <= p < s.len() ==> whitespace_char(#[trigger] s[p]) || exists|i: int|
                0 <= i < words_from::<P>(s, pos).len() && (#[trigger] words_from::<P>(
                    s,
                    pos,
                )[i]).start <= p < words_from::<P>(s, pos)[i].end,
    decreases s.len() - pos,
{
    lemma_word_scan_bounds::<P>(s, pos, pos, initial_state(pos));
    lemma_word_scan_gap::<P>(s, pos, pos, initial_state(pos));
    match next_word::<P>(s, pos) {
        Some(w) => {
            lemma_words_cover::<P>(s, w.next);
            let rest = words_from::<P>(s, w.next);
            let all = words_from::<P>(s, pos);
            assert(all == seq![w] + rest);
            assert forall|p: int| pos <= p < s.len() implies whitespace_char(#[trigger] s[p])
                || exists|i: int| 0 <= i < all.len() && (#[trigger] all[i]).start <= p < all[i].end by {
                if p < w.start {
                } else if p < w.end {
                    assert(all[0] == w);
                } else if !whitespace_char(s[p]) {
                    let i = choose|i: int|
                        0 <= i < rest.len() && (#[trigger] rest[i]).start <= p < rest[i].end;
                    assert(all[i + 1] == rest[i]);
                }
            }
        },
        None => {},
    }
}

/// The tokens of a text come in the order of the text: each lies within the
/// text behind the place where the scan began, none is empty, and each ends
/// before the next begins.
pub proof fn lemma_words_in_order<P: DefinesNonPrefixCharacters + DefinesNonWordCharacters>(
    s: Seq<char>,
    pos: int,
)
    requires
        0 <= pos <= s.len(),
    ensures
        forall|i: int|
            0 <= i < words_from::<P>(s, pos).len() ==> pos <= (#[trigger] words_from::<P>(
                s,
                pos,
            )[i]).start < words_from::<P>(s, pos)[i].end <= s.len(),
        forall|i: int, j: int|
            0 <= i < j < words_from::<P>(s, pos).len() ==> (#[trigger] words_from::<P>(
                s,
                pos,
            )[i]).end <= (#[trigger] words_from::<P>(s, pos)[j]).start,
    decreases s.len() - pos,
{
    lemma_word_scan_bounds::<P>(s, pos, pos, initial_state(pos));
    match next_word::<P>(s, pos) {
        Some(w) => {
            lemma_words_in_order::<P>(s, w.next);
            let rest = words_from::<P>(s, w.next);
            let all = words_from::<P>(s, pos);
            assert(all == seq![w] + rest);
            assert forall|i: int| 0 <= i < all.len() implies pos <= (#[trigger] all[i]).start
                < all[i].end <= s.len() by {
                if i > 0 {
                    assert(all[i] == rest[i - 1]);
                }
            }
            assert forall|i: int, j: int| 0 <= i < j < all.len() implies (#[trigger] all[i]).end
                <= (#[trigger] all[j]).start by {
                assert(all[j] == rest[j - 1]);
                if i > 0 {
                    assert(all[i] == rest[i - 1]);
                }
            }
        },
        None => {},
    }
}

/// The tokens of a text: the views of the tokens that the spans of
/// `words_from` cut out of it.
pub open spec fn tokens_of<P: DefinesNonPrefixCharacters + DefinesNonWordCharacters>(
    s: Seq<char>,
) -> Seq<TokenView> {
    words_from::<P>(s, 0).map_values(|w: WordSpan| token_of(s, w))
}

/// Cuts a text into tokens, one with each call of `next`.
pub struct WordTokenizer<P> {
    pos: usize,
    doc: Vec<char>,
    params: PhantomData<P>,
}

impl<P: DefinesNonPrefixCharacters + DefinesNonWordCharacters> WordTokenizer<P> {
    /// The text that is scanned.
    pub closed spec fn text(&self) -> Seq<char> {
        self.doc@
    }

    /// Where in the text the scanner stands.
    pub closed spec fn position(&self) -> int {
        self.pos as int
    }

    /// Whether the scanner stands within its text.
    pub closed spec fn wf(&self) -> bool {
        self.pos <= self.doc.len()
    }

    /// A scanner at the start of `doc`.
    pub fn new(doc: &str) -> (t: WordTokenizer<P>)
        ensures
            t.wf(),
            t.text() == doc@,
            t.position() == 0,
    {
        WordTokenizer { pos: 0, doc: chars_of(doc), params: PhantomData }
    }

    /// A scanner at the start of the characters `doc`.
    pub fn from_chars(doc: Vec<char>) -> (t: WordTokenizer<P>)
        ensures
            t.wf(),
            t.text() == doc@,
            t.position() == 0,
    {
        WordTokenizer { pos: 0, doc, params: PhantomData }
    }

    /// The next token of the text, and `None` once the text is used up. The
    /// scanner then stands where the scan for the token after it begins.
    pub fn next(&mut self) -> (r: Option<Token>)
        requires
            old(self).wf(),
        ensures
            final(self).wf(),
            final(self).text() == old(self).text(),
            match next_word::<P>(old(self).text(), old(self).position()) {
                Some(w) => r matches Some(t) && t@ == token_of(old(self).text(), w) && t@.wf()
                    && final(self).position() == w.next && old(self).position() < w.next,
                None => r is None && final(self).position() == old(self).text().len(),
            },
    {
        let ghost from = self.pos as int;
        let ghost goal = next_word::<P>(self.doc@, from);
        let mut newline = self.pos == 0;
        let mut paragraph = false;
        let mut capture = false;
        let mut comma = false;
        let mut start: usize = self.pos;
        let ghost st = initial_state(from);
        while self.pos < self.doc.len()
            invariant
                self.doc@ == old(self).doc@,
                from == old(self).pos,
                goal == next_word::<P>(old(self).doc@, from),
                0 <= from <= self.pos <= self.doc.len(),
                st == (WordState { start: start as int, newline, paragraph, capture, comma }),
                state_fits(st, from, self.pos as int),
                word_scan::<P>(self.doc@, self.pos as int, st) == goal,
            decreases self.doc.len() - self.pos,
        {
            let cur = self.doc[self.pos];
            let multi = if cur == '.' || cur == '-' {
                find_multi_char(&self.doc, self.pos)
            } else {
                None
            };
            proof {
                lemma_word_scan_bounds::<P>(self.doc@, from, self.pos as int, st);
            }
            if let Some(e) = multi {
                if capture {
                    if comma {
                        self.pos -= 1;
                    }
                    return Some(
                        Token::from_chars(&self.doc, start, self.pos, false, paragraph, newline),
                    );
                }
                start = self.pos;
                let is_ellipsis = self.doc[e - 1] == '.';
                self.pos = e;
                return Some(
                    Token::from_chars(&self.doc, start, self.pos, is_ellipsis, paragraph, newline),
                );
            }
            if capture {
                if cur.is_whitespace() || P::is_nonword_char(&cur) {
                    if comma {
                        self.pos -= 1;
                    }
                    return Some(
                        Token::from_chars(&self.doc, start, self.pos, false, paragraph, newline),
                    );
                } else if cur.is_alphanumeric() {
                    comma = false;
                } else if cur == ',' {
                    comma = true;
                } else {
                    comma = false;
                }
            } else if !cur.is_whitespace() && !P::is_nonprefix_char(&cur) {
                start = self.pos;
                capture = true;
            } else if !cur.is_whitespace() {
                start = self.pos;
                self.pos += 1;
                return Some(
                    Token::from_chars(&self.doc, start, self.pos, false, paragraph, newline),
                );
            } else if cur == '\n' {
                if !newline {
                    newline = true;
                } else {
                    paragraph = true;
                }
            }
            proof {
                st = WordState { start: start as int, newline, paragraph, capture, comma };
            }
            self.pos += 1;
        }
        if capture {
            proof {
                lemma_word_scan_bounds::<P>(self.doc@, from, self.pos as int, st);
            }
            if comma {
                self.pos -= 1;
            }
            return Some(Token::from_chars(&self.doc, start, self.pos, false, paragraph, newline));
        }
        None
    }

    /// All tokens of `doc`, in the order of the text.
    pub fn tokens(doc: &str) -> (r: Vec<Token>)
        ensures
            r@.map_values(|t: Token| t@) == tokens_of::<P>(doc@),
            forall|i: int| 0 <= i < r.len() ==> (#[trigger] r[i])@.wf(),
    {
        let mut scanner = WordTokenizer::<P>::new(doc);
        let mut r: Vec<Token> = Vec::new();
        let ghost s = doc@;
        let ghost mut spans: Seq<WordSpan> = Seq::empty();
        loop
            invariant
                scanner.wf(),
                scanner.text() == s,
                s == doc@,
                0 <= scanner.position() <= s.len(),
                spans.len() == r.len(),
                spans + words_from::<P>(s, scanner.position()) == words_from::<P>(s, 0),
                forall|i: int| 0 <= i < r.len() ==> (#[trigger] r[i])@ == token_of(s, spans[i]),
                forall|i: int| 0 <= i < r.len() ==> (#[trigger] r[i])@.wf(),
            ensures
                spans == words_from::<P>(s, 0),
                spans.len() == r.len(),
                forall|i: int| 0 <= i < r.len() ==> (#[trigger] r[i])@ == token_of(s, spans[i]),
                forall|i: int| 0 <= i < r.len() ==> (#[trigger] r[i])@.wf(),
            decreases s.len() - scanner.position(),
        {
            let ghost pos = scanner.position();
            proof {
                lemma_word_scan_bounds::<P>(s, pos, pos, initial_state(pos));
            }
            match scanner.next() {
                Some(t) => {
                    proof {
                        let w = next_word::<P>(s, pos)->0;
                        assert(words_from::<P>(s, pos) == seq![w] + words_from::<P>(s, w.next));
                        assert(spans.push(w) + words_from::<P>(s, w.next) =~= spans + (seq![w]
                            + words_from::<P>(s, w.next)));
                        spans = spans.push(w);
                    }
                    r.push(t);
                },
                None => {
                    proof {
                        assert(words_from::<P>(s, pos) == Seq::<WordSpan>::empty());
                        assert(spans + Seq::<WordSpan>::empty() =~= spans);
                    }
                    break ;
                },
            }
        }
        assert(r@.map_values(|t: Token| t@) =~= spans.map_values(|w: WordSpan| token_of(s, w)));
        r
    }
}

} // verus!
