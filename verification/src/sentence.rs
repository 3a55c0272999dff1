//! The sentence tokenizer: cuts a text into sentences, by the regions of the
//! period-context scanner and the two passes over the tokens of each region.

use std::marker::PhantomData;
use vstd::prelude::*;
use vstd::string::StringSliceAdditionalSpecFns;
use crate::annotate::{annotate_first_pass, annotate_second_pass, first_pass, second_pass};
use crate::data::{TrainingData, TrainingDataView};
use crate::params::{
    DefinesNonPrefixCharacters, DefinesNonWordCharacters, DefinesPunctuation,
    DefinesSentenceEndings,
};
use crate::periodctxt::{
    idle, initial_period_state, lemma_period_scan_bounds, lemma_period_scan_gap, next_region,
    PeriodContextTokenizer, Region, RegionSpan,
};
use crate::text::{byte_len, byte_offsets, chars_of, lemma_byte_len_monotonic, string_of, sub_chars};
use crate::token::{Token, TokenView};
use crate::word::{
    initial_state, lemma_word_scan_bounds, next_word, token_of, WordTokenizer,
};

verus! {

/// Whether the tokens of `text` from `pos` on hold one that ends a sentence
/// once the token behind it was seen; `prev` is the token before `pos`,
/// after its first pass.
pub open spec fn break_from<
    P: DefinesNonPrefixCharacters + DefinesNonWordCharacters + DefinesPunctuation + DefinesSentenceEndings,
>(text: Seq<char>, pos: int, prev: Option<TokenView>, d: TrainingDataView) -> bool
    decreases text.len() - pos,
{
    if 0 <= pos <= text.len() {
        match next_word::<P>(text, pos) {
            None => false,
            Some(w) => {
                let cur = first_pass::<P>(token_of(text, w), d);
                if prev is Some && second_pass::<P>(cur, prev->0, d).is_sentence_break {
                    true
                } else if pos < w.next <= text.len() {
                    break_from::<P>(text, w.next, Some(cur), d)
                } else {
                    false
                }
            },
        }
    } else {
        false
    }
}

/// Whether the region `r` of `s` holds the end of a sentence.
pub open spec fn has_break<
    P: DefinesNonPrefixCharacters + DefinesNonWordCharacters + DefinesPunctuation + DefinesSentenceEndings,
>(s: Seq<char>, r: RegionSpan, d: TrainingDataView) -> bool {
    break_from::<P>(s.subrange(r.start, r.end), 0, None, d)
}

/// A sentence as the tokenizer found it, and how the search goes on.
pub struct SentenceStep {
    /// Where the sentence starts.
    pub start: int,
    /// Where the sentence ends.
    pub end: int,
    /// Where the scan for regions goes on.
    pub next_pos: int,
    /// Where the next sentence starts.
    pub next_last: int,
}

/// The sentence that the region `r` ends, for a sentence that starts at
/// `last`. Where a character that cannot stand in a word ended the region,
/// the sentence ends before that character and the next one starts with it.
/// Else the sentence ends where the white space begins, and the next one
/// starts with the token behind it.
pub open spec fn step_of(r: RegionSpan, last: int) -> SentenceStep {
    if r.next_tok_start == r.end {
        SentenceStep { start: last, end: r.end - 1, next_pos: r.next_pos, next_last: r.end - 1 }
    } else {
        SentenceStep {
            start: last,
            end: r.ws_start,
            next_pos: r.next_pos,
            next_last: r.next_tok_start,
        }
    }
}

/// The next sentence of `s` that a region ends, for a scanner that stands at
/// `pos` and a sentence that starts at `last`; `None` where no region from
/// there on holds the end of a sentence.
pub open spec fn sentence_after<
    P: DefinesNonPrefixCharacters + DefinesNonWordCharacters + DefinesPunctuation + DefinesSentenceEndings,
>(s: Seq<char>, pos: int, last: int, d: TrainingDataView) -> Option<SentenceStep>
    decreases s.len() - pos,
{
    match next_region::<P>(s, pos) {
        None => None,
        Some(r) => if has_break::<P>(s, r, d) {
            Some(step_of(r, last))
        } else if pos < r.next_pos <= s.len() {
            sentence_after::<P>(s, r.next_pos, last, d)
        } else {
            None
        },
    }
}

/// The sentences of `s` from the one that starts at `last` on, for a scanner
/// that stands at `pos`: those that regions end, and then the rest of the
/// text as the last sentence. An empty text has no sentence.
pub open spec fn sentences_from<
    P: DefinesNonPrefixCharacters + DefinesNonWordCharacters + DefinesPunctuation + DefinesSentenceEndings,
>(s: Seq<char>, pos: int, last: int, d: TrainingDataView) -> Seq<(int, int)>
    decreases s.len() - pos,
{
    match sentence_after::<P>(s, pos, last, d) {
        Some(step) => if pos < step.next_pos <= s.len() {
            seq![(step.start, step.end)] + sentences_from::<P>(s, step.next_pos, step.next_last, d)
        } else {
            seq![(step.start, step.end)]
        },
        None => if s.len() > 0 {
            seq![(last, s.len() as int)]
        } else {
            Seq::empty()
        },
    }
}

/// The sentences of `s`, each as the places of its first character and of
/// the character behind its last.
pub open spec fn sentence_spans<
    P: DefinesNonPrefixCharacters + DefinesNonWordCharacters + DefinesPunctuation + DefinesSentenceEndings,
>(s: Seq<char>, d: TrainingDataView) -> Seq<(int, int)> {
    sentences_from::<P>(s, 0, 0, d)
}

/// The byte offsets of the span `p` of characters of `s`.
pub open spec fn byte_span(s: Seq<char>, p: (int, int)) -> (int, int) {
    (byte_len(s.take(p.0)) as int, byte_len(s.take(p.1)) as int)
}

/// The sentences of `s`, each as the byte offsets of its start and of its
/// end in the UTF-8 encoding of `s`.
pub open spec fn sentence_byte_spans<
    P: DefinesNonPrefixCharacters + DefinesNonWordCharacters + DefinesPunctuation + DefinesSentenceEndings,
>(s: Seq<char>, d: TrainingDataView) -> Seq<(int, int)> {
    sentence_spans::<P>(s, d).map_values(|p: (int, int)| byte_span(s, p))
}

/// Whether the spans cover a text of `len` units from a start at `first`:
/// none is empty, each begins at or behind the end of the one before it, the
/// first begins at `first`, and the last ends with the text.
pub open spec fn covers(v: Seq<(int, int)>, first: int, len: int) -> bool {
    &&& v.len() >= 1
    &&& v[0].0 == first
    &&& v.last().1 == len
    &&& forall|i: int| 0 <= i < v.len() ==> first <= (#[trigger] v[i]).0 < v[i].1 <= len
    &&& forall|i: int| 0 <= i < v.len() - 1 ==> (#[trigger] v[i]).1 <= v[i + 1].0
}

/// The step to the next sentence leads on: the sentence is not empty and
/// starts at `last`, the next one starts at or behind its end and before the
/// end of the text, and the scan goes on behind `pos`.
pub proof fn lemma_sentence_after_bounds<
    P: DefinesNonPrefixCharacters + DefinesNonWordCharacters + DefinesPunctuation + DefinesSentenceEndings,
>(s: Seq<char>, pos: int, last: int, d: TrainingDataView)
    requires
        0 <= last <= pos <= s.len(),
    ensures
        sentence_after::<P>(s, pos, last, d) matches Some(step) ==> step.start == last && last
            < step.end <= step.next_last <= step.next_pos <= s.len() && step.next_last < s.len()
            && pos < step.next_pos,
    decreases s.len() - pos,
{
    lemma_period_scan_bounds::<P>(s, pos, pos, initial_period_state(pos));
    match next_region::<P>(s, pos) {
        None => {},
        Some(r) => {
            if has_break::<P>(s, r, d) {
            } else {
                lemma_sentence_after_bounds::<P>(s, r.next_pos, last, d);
            }
        },
    }
}

/// What stands between a sentence and the next is white space or
/// sentence-ending characters.
pub proof fn lemma_sentence_after_gap<
    P: DefinesNonPrefixCharacters + DefinesNonWordCharacters + DefinesPunctuation + DefinesSentenceEndings,
>(s: Seq<char>, pos: int, last: int, d: TrainingDataView)
    requires
        0 <= last <= pos <= s.len(),
    ensures
        sentence_after::<P>(s, pos, last, d) matches Some(step) ==> idle::<P>(
            s,
            step.end,
            step.next_last,
        ),
    decreases s.len() - pos,
{
    lemma_period_scan_bounds::<P>(s, pos, pos, initial_period_state(pos));
    lemma_period_scan_gap::<P>(s, pos, pos, initial_period_state(pos));
    match next_region::<P>(s, pos) {
        None => {},
        Some(r) => {
            if has_break::<P>(s, r, d) {
            } else {
                lemma_sentence_after_gap::<P>(s, r.next_pos, last, d);
            }
        },
    }
}

/// Whether nothing but white space and sentence-ending characters stands
/// between each of the spans and the next.
pub open spec fn gaps_idle<P: DefinesSentenceEndings>(s: Seq<char>, v: Seq<(int, int)>) -> bool {
    forall|i: int| 0 <= i < v.len() - 1 ==> idle::<P>(s, (#[trigger] v[i]).1, v[i + 1].0)
}

/// The sentences of a text leave out nothing but white space and
/// sentence-ending characters between them.
pub proof fn lemma_sentences_gaps<
    P: DefinesNonPrefixCharacters + DefinesNonWordCharacters + DefinesPunctuation + DefinesSentenceEndings,
>(s: Seq<char>, pos: int, last: int, d: TrainingDataView)
    requires
        0 <= last <= pos <= s.len(),
        last < s.len(),
    ensures
        gaps_idle::<P>(s, sentences_from::<P>(s, pos, last, d)),
    decreases s.len() - pos,
{
    lemma_sentence_after_bounds::<P>(s, pos, last, d);
    lemma_sentence_after_gap::<P>(s, pos, last, d);
    match sentence_after::<P>(s, pos, last, d) {
        Some(step) => {
            lemma_sentences_gaps::<P>(s, step.next_pos, step.next_last, d);
            lemma_sentences_cover::<P>(s, step.next_pos, step.next_last, d);
            let rest = sentences_from::<P>(s, step.next_pos, step.next_last, d);
            let v = sentences_from::<P>(s, pos, last, d);
            assert(v == seq![(step.start, step.end)] + rest);
            assert forall|i: int| 0 <= i < v.len() - 1 implies idle::<P>(
                s,
                (#[trigger] v[i]).1,
                v[i + 1].0,
            ) by {
                assert(v[i + 1] == rest[i]);
                if i > 0 {
                    assert(v[i] == rest[i - 1]);
                } else {
                    assert(rest[0].0 == step.next_last);
                }
            }
        },
        None => {},
    }
}

/// The sentences of a text that is not empty cover it, in the order of the
/// text and without overlap.
pub proof fn lemma_sentences_cover<
    P: DefinesNonPrefixCharacters + DefinesNonWordCharacters + DefinesPunctuation + DefinesSentenceEndings,
>(s: Seq<char>, pos: int, last: int, d: TrainingDataView)
    requires
        0 <= last <= pos <= s.len(),
        last < s.len(),
    ensures
        covers(sentences_from::<P>(s, pos, last, d), last, s.len() as int),
    decreases s.len() - pos,
{
    lemma_sentence_after_bounds::<P>(s, pos, last, d);
    match sentence_after::<P>(s, pos, last, d) {
        Some(step) => {
            lemma_sentences_cover::<P>(s, step.next_pos, step.next_last, d);
            let rest = sentences_from::<P>(s, step.next_pos, step.next_last, d);
            let v = sentences_from::<P>(s, pos, last, d);
            assert(v == seq![(step.start, step.end)] + rest);
            assert forall|i: int| 0 <= i < v.len() implies last <= (#[trigger] v[i]).0 < v[i].1
                <= s.len() by {
                if i > 0 {
                    assert(v[i] == rest[i - 1]);
                }
            }
            assert forall|i: int| 0 <= i < v.len() - 1 implies (#[trigger] v[i]).1 <= v[i + 1].0 by {
                assert(v[i + 1] == rest[i]);
                if i > 0 {
                    assert(v[i] == rest[i - 1]);
                }
            }
            assert(v.last() == rest.last());
        },
        None => {},
    }
}

/// Span coverage, between the spans: nothing but white space and
/// sentence-ending characters stands between a sentence of a text and the
/// next.
pub proof fn lemma_spans_leave_out_nothing<
    P: DefinesNonPrefixCharacters + DefinesNonWordCharacters + DefinesPunctuation + DefinesSentenceEndings,
>(s: Seq<char>, d: TrainingDataView)
    requires
        s.len() > 0,
    ensures
        gaps_idle::<P>(s, sentence_spans::<P>(s, d)),
{
    lemma_sentences_gaps::<P>(s, 0, 0, d);
}

/// Span coverage and ordering, in characters: the sentences of a text that
/// is not empty start at its first character and end with its last, none is
/// empty, none overlaps the next, and their starts grow strictly.
pub proof fn lemma_spans_cover_text<
    P: DefinesNonPrefixCharacters + DefinesNonWordCharacters + DefinesPunctuation + DefinesSentenceEndings,
>(s: Seq<char>, d: TrainingDataView)
    requires
        s.len() > 0,
    ensures
        covers(sentence_spans::<P>(s, d), 0, s.len() as int),
        forall|i: int, j: int|
            0 <= i < j < sentence_spans::<P>(s, d).len() ==> (#[trigger] sentence_spans::<P>(
                s,
                d,
            )[i]).0 < (#[trigger] sentence_spans::<P>(s, d)[j]).0,
{
    lemma_sentences_cover::<P>(s, 0, 0, d);
    let v = sentence_spans::<P>(s, d);
    assert forall|i: int, j: int| 0 <= i < j < v.len() implies (#[trigger] v[i]).0 < (
    #[trigger] v[j]).0 by {
        lemma_starts_grow(v, 0, s.len() as int, i, j);
    }
}

/// In spans that cover a text, a later span starts behind the end of an
/// earlier one.
pub proof fn lemma_starts_grow(v: Seq<(int, int)>, first: int, len: int, i: int, j: int)
    requires
        covers(v, first, len),
        0 <= i < j < v.len(),
    ensures
        v[i].1 <= v[j].0,
        v[i].0 < v[j].0,
    decreases j - i,
{
    if i + 1 < j {
        lemma_starts_grow(v, first, len, i, j - 1);
        assert(v[j - 1].1 <= v[j].0);
        assert(v[j - 1].0 < v[j - 1].1);
    } else {
        assert(v[i].1 <= v[i + 1].0);
    }
}

/// Span coverage and ordering, in bytes: the byte offsets of the sentences
/// of a text that is not empty start at 0 and end at the byte length of the
/// text, no sentence is empty, none overlaps the next, and their starts grow
/// strictly.
pub proof fn lemma_byte_spans_cover_text<
    P: DefinesNonPrefixCharacters + DefinesNonWordCharacters + DefinesPunctuation + DefinesSentenceEndings,
>(s: Seq<char>, d: TrainingDataView)
    requires
        s.len() > 0,
    ensures
        covers(sentence_byte_spans::<P>(s, d), 0, byte_len(s) as int),
        forall|i: int, j: int|
            0 <= i < j < sentence_byte_spans::<P>(s, d).len() ==> (
            #[trigger] sentence_byte_spans::<P>(s, d)[i]).0 < (#[trigger] sentence_byte_spans::<P>(
                s,
                d,
            )[j]).0,
{
    lemma_spans_cover_text::<P>(s, d);
    let v = sentence_spans::<P>(s, d);
    let b = sentence_byte_spans::<P>(s, d);
    let n = s.len() as int;
    assert(s.take(n) =~= s);
    assert(s.take(0) =~= Seq::<char>::empty());
    assert forall|i: int| 0 <= i < b.len() implies 0 <= (#[trigger] b[i]).0 < b[i].1 <= byte_len(
        s,
    ) by {
        assert(0 <= v[i].0 < v[i].1 <= n);
        lemma_byte_len_monotonic(s, v[i].0, v[i].1);
        lemma_byte_len_monotonic(s, v[i].1, n);
    }
    assert forall|i: int| 0 <= i < b.len() - 1 implies (#[trigger] b[i]).1 <= b[i + 1].0 by {
        assert(v[i].1 <= v[i + 1].0);
        assert(0 <= v[i].0 < v[i].1 <= n);
        assert(0 <= v[i + 1].0 < v[i + 1].1 <= n);
        lemma_byte_len_monotonic(s, v[i].1, v[i + 1].0);
    }
    assert forall|i: int, j: int| 0 <= i < j < b.len() implies (#[trigger] b[i]).0 < (
    #[trigger] b[j]).0 by {
        lemma_starts_grow(b, 0, byte_len(s) as int, i, j);
    }
}

/// Whether `r` holds the sentences of `s`, as byte offsets.
pub open spec fn is_offsets_of<
    P: DefinesNonPrefixCharacters + DefinesNonWordCharacters + DefinesPunctuation + DefinesSentenceEndings,
>(r: Seq<(usize, usize)>, s: Seq<char>, d: TrainingDataView) -> bool {
    &&& r.len() == sentence_byte_spans::<P>(s, d).len()
    &&& forall|i: int|
        0 <= i < r.len() ==> ((#[trigger] r[i]).0 as int, r[i].1 as int) == sentence_byte_spans::<P>(
            s,
            d,
        )[i]
}

/// Determinism: the same text and the same training data give the same
/// sentences, whenever and wherever they are cut.
pub proof fn lemma_sentences_are_determined<
    P: DefinesNonPrefixCharacters + DefinesNonWordCharacters + DefinesPunctuation + DefinesSentenceEndings,
>(
    s1: Seq<char>,
    d1: TrainingDataView,
    r1: Seq<(usize, usize)>,
    s2: Seq<char>,
    d2: TrainingDataView,
    r2: Seq<(usize, usize)>,
)
    requires
        is_offsets_of::<P>(r1, s1, d1),
        is_offsets_of::<P>(r2, s2, d2),
        s1 == s2,
        d1 == d2,
    ensures
        r1 == r2,
{
    assert forall|i: int| 0 <= i < r1.len() implies r1[i] == r2[i] by {
        assert((r1[i].0 as int, r1[i].1 as int) == (r2[i].0 as int, r2[i].1 as int));
    }
    assert(r1 =~= r2);
}

/// Whether the tokens of the region of `doc` hold the end of a sentence.
fn region_has_break<
    P: DefinesNonPrefixCharacters + DefinesNonWordCharacters + DefinesPunctuation + DefinesSentenceEndings,
>(doc: &Vec<char>, region: &Region, data: &TrainingData) -> (b: bool)
    requires
        region.start <= region.end <= doc.len(),
        data.wf(),
    ensures
        b == break_from::<P>(
            doc@.subrange(region.start as int, region.end as int),
            0,
            None,
            data@,
        ),
{
    let text = sub_chars(doc, region.start, region.end);
    let ghost s = text@;
    let ghost goal = break_from::<P>(s, 0, None, data@);
    let mut words = WordTokenizer::<P>::from_chars(text);
    let mut prv: Option<Token> = None;
    let ghost mut pv: Option<TokenView> = None;
    loop
        invariant
            words.wf(),
            data.wf(),
            words.text() == s,
            s == doc@.subrange(region.start as int, region.end as int),
            goal == break_from::<P>(s, 0, None, data@),
            0 <= words.position() <= s.len(),
            match prv {
                Some(p) => pv == Some(p@),
                None => pv is None,
            },
            break_from::<P>(s, words.position(), pv, data@) == goal,
        decreases s.len() - words.position(),
    {
        let ghost pos = words.position();
        proof {
            lemma_word_scan_bounds::<P>(s, pos, pos, initial_state(pos));
        }
        match words.next() {
            None => {
                return false;
            },
            Some(t) => {
                let mut t = t;
                annotate_first_pass::<P>(&mut t, data);
                match prv {
                    Some(p) => {
                        let mut p = p;
                        annotate_second_pass::<P>(&mut t, &mut p, data);
                        if p.is_sentence_break() {
                            return true;
                        }
                    },
                    None => {},
                }
                proof {
                    pv = Some(t@);
                }
                prv = Some(t);
            },
        }
    }
}

/// Yields the sentences of a text as byte offsets into its UTF-8 encoding,
/// one with each call of `next`.
pub struct SentenceByteOffsetTokenizer<'a, P> {
    offsets: Vec<usize>,
    data: &'a TrainingData,
    iter: PeriodContextTokenizer<P>,
    last: usize,
    done: bool,
    params: PhantomData<P>,
}

impl<
    'a,
    P: DefinesNonPrefixCharacters + DefinesNonWordCharacters + DefinesPunctuation + DefinesSentenceEndings,
> SentenceByteOffsetTokenizer<'a, P> {
    /// The text that is cut into sentences.
    pub closed spec fn text(&self) -> Seq<char> {
        self.iter.text()
    }

    /// The training data that the tokenizer reads.
    pub closed spec fn data(&self) -> TrainingDataView {
        self.data@
    }

    /// Where the scan for regions stands, in characters.
    pub closed spec fn position(&self) -> int {
        self.iter.position()
    }

    /// Where the next sentence starts, in characters.
    pub closed spec fn last(&self) -> int {
        self.last as int
    }

    /// Whether the last sentence was handed out.
    pub closed spec fn done(&self) -> bool {
        self.done
    }

    /// The sentences that are still to come, in characters.
    pub open spec fn remaining(&self) -> Seq<(int, int)> {
        if self.done() {
            Seq::empty()
        } else {
            sentences_from::<P>(self.text(), self.position(), self.last(), self.data())
        }
    }

    /// Whether the tokenizer is in order: it stands within its text, behind
    /// the start of the next sentence, and knows the byte offset of every
    /// character.
    pub closed spec fn wf(&self) -> bool {
        &&& self.iter.wf()
        &&& self.data.wf()
        &&& 0 <= self.last <= self.iter.position() <= self.iter.text().len()
        &&& (self.iter.text().len() > 0 ==> self.last < self.iter.text().len())
        &&& self.offsets.len() == self.iter.text().len() + 1
        &&& forall|i: int|
            0 <= i <= self.iter.text().len() ==> #[trigger] self.offsets[i] == byte_len(
                self.iter.text().take(i),
            )
    }

    /// A tokenizer at the start of `doc`, which reads `data`.
    pub fn new(doc: &'a str, data: &'a TrainingData) -> (t: SentenceByteOffsetTokenizer<'a, P>)
        requires
            data.wf(),
        ensures
            t.wf(),
            t.text() == doc@,
            t.data() == data@,
            t.remaining() == sentence_spans::<P>(doc@, data@),
    {
        let chars = chars_of(doc);
        let n = doc.as_bytes().len();
        assert(byte_len(chars@) == n);
        let offsets = byte_offsets(&chars);
        SentenceByteOffsetTokenizer {
            offsets,
            data,
            iter: PeriodContextTokenizer::from_chars(chars),
            last: 0,
            done: false,
            params: PhantomData,
        }
    }

    /// The next sentence, as the places of its first character and of the
    /// character behind its last, both counted in characters; `None` once
    /// all sentences were handed out.
    pub fn next_chars(&mut self) -> (r: Option<(usize, usize)>)
        requires
            old(self).wf(),
        ensures
            final(self).wf(),
            final(self).text() == old(self).text(),
            final(self).data() == old(self).data(),
            if old(self).remaining().len() > 0 {
                r matches Some(p) && (p.0 as int, p.1 as int) == old(self).remaining()[0] && final(self).remaining() == old(self).remaining().drop_first() && p.0 <= p.1 <= old(self).text().len()
            } else {
                r is None && final(self).remaining().len() == 0
            },
    {
        if self.done {
            return None;
        }
        let ghost s = self.iter.text();
        let ghost d = self.data@;
        let ghost goal = sentences_from::<P>(s, self.iter.position(), self.last as int, d);
        loop
            invariant
                self.wf(),
                !self.done,
                self.iter.text() == s,
                self.data@ == d,
                self.offsets == old(self).offsets,
                self.last == old(self).last,
                self.data == old(self).data,
                goal == old(self).remaining(),
                old(self).text() == s,
                sentences_from::<P>(s, self.iter.position(), self.last as int, d) == goal,
            decreases s.len() - self.iter.position(),
        {
            let ghost pos = self.iter.position();
            proof {
                lemma_sentence_after_bounds::<P>(s, pos, self.last as int, d);
            }
            match self.iter.next() {
                Some(region) => {
                    if region_has_break::<P>(self.iter.chars(), &region, self.data) {
                        let start = self.last;
                        let end = if region.next_tok_start == region.end {
                            region.end - 1
                        } else {
                            region.ws_start
                        };
                        if region.next_tok_start == region.end {
                            self.last = region.end - 1;
                        } else {
                            self.last = region.next_tok_start;
                        }
                        proof {
                            let step = sentence_after::<P>(s, pos, start as int, d)->0;
                            assert(goal == seq![(step.start, step.end)] + sentences_from::<P>(
                                s,
                                step.next_pos,
                                step.next_last,
                                d,
                            ));
                            assert(goal.drop_first() =~= sentences_from::<P>(
                                s,
                                step.next_pos,
                                step.next_last,
                                d,
                            ));
                        }
                        return Some((start, end));
                    }
                    proof {
                        lemma_sentence_after_bounds::<P>(
                            s,
                            self.iter.position(),
                            self.last as int,
                            d,
                        );
                    }
                },
                None => {
                    self.done = true;
                    let n = self.iter.chars().len();
                    if n > 0 {
                        proof {
                            assert(goal =~= seq![(self.last as int, n as int)]);
                            assert(goal.drop_first() =~= Seq::<(int, int)>::empty());
                        }
                        return Some((self.last, n));
                    } else {
                        return None;
                    }
                },
            }
        }
    }

    /// The next sentence, as the byte offsets of its start and of its end in
    /// the UTF-8 encoding of the text; `None` once all sentences were handed
    /// out.
    pub fn next(&mut self) -> (r: Option<(usize, usize)>)
        requires
            old(self).wf(),
        ensures
            final(self).wf(),
            final(self).text() == old(self).text(),
            final(self).data() == old(self).data(),
            if old(self).remaining().len() > 0 {
                r matches Some(p) && (p.0 as int, p.1 as int) == byte_span(old(self).text(), old(self).remaining()[0]) && final(self).remaining() == old(self).remaining().drop_first()
            } else {
                r is None && final(self).remaining().len() == 0
            },
    {
        match self.next_chars() {
            Some((start, end)) => Some((self.offsets[start], self.offsets[end])),
            None => None,
        }
    }
}

/// Yields the sentences of a text, one with each call of `next`.
pub struct SentenceTokenizer<'a, P> {
    iter: SentenceByteOffsetTokenizer<'a, P>,
    params: PhantomData<P>,
}

impl<
    'a,
    P: DefinesNonPrefixCharacters + DefinesNonWordCharacters + DefinesPunctuation + DefinesSentenceEndings,
> SentenceTokenizer<'a, P> {
    /// The text that is cut into sentences.
    pub closed spec fn text(&self) -> Seq<char> {
        self.iter.text()
    }

    /// The sentences that are still to come, in characters.
    pub closed spec fn remaining(&self) -> Seq<(int, int)> {
        self.iter.remaining()
    }

    /// Whether the tokenizer is in order.
    pub closed spec fn wf(&self) -> bool {
        self.iter.wf()
    }

    /// A tokenizer at the start of `doc`, which reads `data`.
    pub fn new(doc: &'a str, data: &'a TrainingData) -> (t: SentenceTokenizer<'a, P>)
        requires
            data.wf(),
        ensures
            t.wf(),
            t.text() == doc@,
            t.remaining() == sentence_spans::<P>(doc@, data@),
    {
        SentenceTokenizer { iter: SentenceByteOffsetTokenizer::new(doc, data), params: PhantomData }
    }

    /// The next sentence of the text; `None` once all sentences were handed
    /// out.
    pub fn next(&mut self) -> (r: Option<String>)
        requires
            old(self).wf(),
        ensures
            final(self).wf(),
            final(self).text() == old(self).text(),
            if old(self).remaining().len() > 0 {
                r matches Some(sentence) && sentence@ == old(self).text().subrange(old(self).remaining()[0].0, old(self).remaining()[0].1) && final(self).remaining() == old(self).remaining().drop_first()
            } else {
                r is None && final(self).remaining().len() == 0
            },
    {
        match self.iter.next_chars() {
            Some((start, end)) => Some(string_of(self.iter.iter.chars(), start, end)),
            None => None,
        }
    }
}

/// The sentences of `doc`, each as the byte offsets of its start and of its
/// end. A text that is not empty has at least one sentence; its sentences
/// start at offset 0 and end at the length of the text, none is empty, and
/// none overlaps the next. An empty text has none.
pub fn sentence_offsets<
    P: DefinesNonPrefixCharacters + DefinesNonWordCharacters + DefinesPunctuation + DefinesSentenceEndings,
>(doc: &str, data: &TrainingData) -> (r: Vec<(usize, usize)>)
    requires
        data.wf(),
    ensures
        is_offsets_of::<P>(r@, doc@, data@),
        doc@.len() == 0 ==> r.len() == 0,
        doc@.len() > 0 ==> covers(
            sentence_byte_spans::<P>(doc@, data@),
            0,
            byte_len(doc@) as int,
        ),
{
    let mut tokenizer = SentenceByteOffsetTokenizer::<P>::new(doc, data);
    let mut r: Vec<(usize, usize)> = Vec::new();
    let ghost s = doc@;
    let ghost all = sentence_spans::<P>(s, data@);
    proof {
        if s.len() > 0 {
            lemma_byte_spans_cover_text::<P>(s, data@);
        }
    }
    loop
        invariant
            tokenizer.wf(),
            tokenizer.text() == s,
            r.len() + tokenizer.remaining().len() == all.len(),
            tokenizer.remaining() == all.skip(r.len() as int),
            forall|i: int|
                0 <= i < r.len() ==> ((#[trigger] r[i]).0 as int, r[i].1 as int) == byte_span(
                    s,
                    all[i],
                ),
        ensures
            r.len() == all.len(),
            forall|i: int|
                0 <= i < r.len() ==> ((#[trigger] r[i]).0 as int, r[i].1 as int) == byte_span(
                    s,
                    all[i],
                ),
        decreases tokenizer.remaining().len(),
    {
        let ghost n = r.len() as int;
        match tokenizer.next() {
            Some(p) => {
                r.push(p);
                assert(all.skip(n).drop_first() =~= all.skip(n + 1));
            },
            None => {
                break ;
            },
        }
    }
    r
}

/// The sentences of `doc`, in the order of the text.
pub fn sentences<
    P: DefinesNonPrefixCharacters + DefinesNonWordCharacters + DefinesPunctuation + DefinesSentenceEndings,
>(doc: &str, data: &TrainingData) -> (r: Vec<String>)
    requires
        data.wf(),
    ensures
        r.len() == sentence_spans::<P>(doc@, data@).len(),
        forall|i: int|
            0 <= i < r.len() ==> (#[trigger] r[i])@ == doc@.subrange(
                sentence_spans::<P>(doc@, data@)[i].0,
                sentence_spans::<P>(doc@, data@)[i].1,
            ),
{
    let mut tokenizer = SentenceTokenizer::<P>::new(doc, data);
    let mut r: Vec<String> = Vec::new();
    let ghost s = doc@;
    let ghost all = sentence_spans::<P>(s, data@);
    loop
        invariant
            tokenizer.wf(),
            tokenizer.text() == s,
            r.len() + tokenizer.remaining().len() == all.len(),
            tokenizer.remaining() == all.skip(r.len() as int),
            forall|i: int|
                0 <= i < r.len() ==> (#[trigger] r[i])@ == s.subrange(all[i].0, all[i].1),
        ensures
            r.len() == all.len(),
            forall|i: int|
                0 <= i < r.len() ==> (#[trigger] r[i])@ == s.subrange(all[i].0, all[i].1),
        decreases tokenizer.remaining().len(),
    {
        let ghost n = r.len() as int;
        match tokenizer.next() {
            Some(sentence) => {
                r.push(sentence);
                assert(all.skip(n).drop_first() =~= all.skip(n + 1));
            },
            None => {
                break ;
            },
        }
    }
    r
}

} // verus!
