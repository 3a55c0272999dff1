//! The period-context scanner: finds each sentence-ending character of a text
//! together with what stands around it, from the start of the words before it
//! to the end of the token after it. All positions count characters.

use std::marker::PhantomData;
use vstd::prelude::*;
use crate::params::{DefinesNonWordCharacters, DefinesSentenceEndings};
use crate::text::{chars_of, string_of, whitespace_char};

verus! {

/// A region of a text around a sentence-ending character.
#[derive(Clone, Copy, Debug, PartialEq, Eq, Structural)]
pub struct Region {
    /// Where the region starts.
    pub start: usize,
    /// Where the token after the sentence-ending character starts. It is
    /// `end` where a character that cannot stand in a word ended the region.
    pub next_tok_start: usize,
    /// Where the white space after the sentence-ending character starts.
    pub ws_start: usize,
    /// Where the region ends.
    pub end: usize,
}

/// A region as the scanner found it, and where the scan goes on.
pub struct RegionSpan {
    pub start: int,
    pub next_tok_start: int,
    pub ws_start: int,
    pub end: int,
    pub next_pos: int,
}

/// The state of the scanner between two characters.
pub struct PeriodState {
    /// Where the region starts.
    pub astart: int,
    /// Where the white space after the sentence-ending character starts.
    pub wstart: int,
    /// Where the token after that white space starts.
    pub nstart: int,
    /// A sentence-ending character was seen.
    pub sent_end: bool,
    /// White space after it has begun.
    pub tokn_beg: bool,
    /// The token after that white space is being captured.
    pub capt_tok: bool,
    /// The region starts anew at the next character that is no white space.
    pub updt_stt: bool,
    /// The captured token holds a sentence-ending character, so the next
    /// scan begins at its start.
    pub updt_ret: bool,
}

/// The state in which a scan from `pos` begins.
pub open spec fn initial_period_state(pos: int) -> PeriodState {
    PeriodState {
        astart: pos,
        wstart: pos,
        nstart: pos,
        sent_end: false,
        tokn_beg: false,
        capt_tok: false,
        updt_stt: false,
        updt_ret: false,
    }
}

/// The region that ends at `end` in state `st`.
pub open spec fn region_at(st: PeriodState, end: int) -> RegionSpan {
    RegionSpan {
        start: st.astart,
        next_tok_start: st.nstart,
        ws_start: st.wstart,
        end,
        next_pos: if st.updt_ret {
            st.nstart
        } else {
            end
        },
    }
}

/// Looks ahead from `pos`, behind a sentence-ending character and a
/// character that cannot stand in a word. `None`: white space comes first,
/// so the sentence-ending character ended its token. Else the place of the
/// first sentence-ending character that has white space, a character that
/// cannot stand in a word, or nothing behind it; the end of the text where
/// there is none.
pub open spec fn lookahead<P: DefinesNonWordCharacters + DefinesSentenceEndings>(
    s: Seq<char>,
    pos: int,
) -> Option<int>
    decreases s.len() - pos,
{
    if pos >= s.len() {
        Some(pos)
    } else if whitespace_char(s[pos]) {
        None
    } else if P::sentence_endings().contains(s[pos]) && (pos + 1 >= s.len() || whitespace_char(
        s[pos + 1],
    ) || P::nonword_chars().contains(s[pos + 1])) {
        Some(pos)
    } else {
        lookahead::<P>(s, pos + 1)
    }
}

/// Where the scan goes on after a look ahead that stopped at `x`: behind the
/// sentence-ending character there, or at the end of the text.
pub open spec fn after_lookahead(s: Seq<char>, x: int) -> int {
    if x + 1 <= s.len() {
        x + 1
    } else {
        s.len() as int
    }
}

/// The next region of `s` for a scanner that stands at `pos` in state `st`;
/// `None` where the text ends first.
pub open spec fn period_scan<P: DefinesNonWordCharacters + DefinesSentenceEndings>(
    s: Seq<char>,
    pos: int,
    st: PeriodState,
) -> Option<RegionSpan>
    decreases s.len() - pos,
{
    if pos >= s.len() || pos < 0 {
        None
    } else {
        let c = s[pos];
        if P::sentence_endings().contains(c) {
            period_scan::<P>(
                s,
                pos + 1,
                PeriodState {
                    sent_end: true,
                    astart: if st.updt_stt {
                        pos
                    } else {
                        st.astart
                    },
                    updt_stt: false,
                    updt_ret: st.updt_ret || st.capt_tok,
                    ..st
                },
            )
        } else if !st.sent_end {
            if whitespace_char(c) {
                period_scan::<P>(s, pos + 1, PeriodState { updt_stt: true, ..st })
            } else if st.updt_stt {
                period_scan::<P>(s, pos + 1, PeriodState { astart: pos, updt_stt: false, ..st })
            } else {
                period_scan::<P>(s, pos + 1, st)
            }
        } else if !st.tokn_beg {
            if whitespace_char(c) {
                period_scan::<P>(s, pos + 1, PeriodState { tokn_beg: true, wstart: pos, ..st })
            } else if P::nonword_chars().contains(c) {
                match lookahead::<P>(s, pos + 1) {
                    Some(x) => if pos < x {
                        period_scan::<P>(
                            s,
                            after_lookahead(s, x),
                            PeriodState { nstart: pos + 1, ..st },
                        )
                    } else {
                        None
                    },
                    None => Some(region_at(PeriodState { nstart: pos + 1, ..st }, pos + 1)),
                }
            } else {
                period_scan::<P>(s, pos + 1, PeriodState { sent_end: false, ..st })
            }
        } else if !st.capt_tok {
            if !whitespace_char(c) {
                period_scan::<P>(s, pos + 1, PeriodState { nstart: pos, capt_tok: true, ..st })
            } else {
                period_scan::<P>(s, pos + 1, st)
            }
        } else if whitespace_char(c) {
            Some(region_at(st, pos))
        } else {
            period_scan::<P>(s, pos + 1, st)
        }
    }
}

/// The next region of `s` for a scanner that stands at `pos`.
pub open spec fn next_region<P: DefinesNonWordCharacters + DefinesSentenceEndings>(
    s: Seq<char>,
    pos: int,
) -> Option<RegionSpan> {
    period_scan::<P>(s, pos, initial_period_state(pos))
}

/// A look ahead stops at or behind where it began, within the text.
pub proof fn lemma_lookahead_bounds<P: DefinesNonWordCharacters + DefinesSentenceEndings>(
    s: Seq<char>,
    pos: int,
)
    requires
        0 <= pos <= s.len(),
    ensures
        lookahead::<P>(s, pos) matches Some(x) ==> pos <= x <= s.len(),
    decreases s.len() - pos,
{
    if pos < s.len() {
        lemma_lookahead_bounds::<P>(s, pos + 1);
    }
}

/// Whether the state `st` can be that of a scan that began at `from` and
/// stands at `pos`.
pub open spec fn period_state_fits(st: PeriodState, from: int, pos: int) -> bool {
    &&& from <= st.astart <= pos
    &&& (st.sent_end ==> from < pos && st.astart < pos && !st.updt_stt)
    &&& (st.tokn_beg ==> st.sent_end && from < st.wstart < pos && st.astart < st.wstart)
    &&& (st.capt_tok ==> st.tokn_beg && st.wstart < st.nstart < pos)
    &&& (st.updt_ret ==> st.capt_tok)
}

/// Whether the region `r` can come from a scan of a text of `len`
/// characters that began at `from`. The region is not empty and lies behind
/// `from`, and the scan goes on behind `from`. Either a character that
/// cannot stand in a word ended the region: then the next token starts at
/// the end of the region, that character lies behind `from`, and the scan
/// goes on at the end. Or white space and a token follow the sentence-ending
/// character, in that order, and the scan goes on at the start of that token
/// or at the end of the region.
pub open spec fn region_fits(r: RegionSpan, from: int, len: int) -> bool {
    &&& from <= r.start < r.end <= len
    &&& from < r.next_pos <= r.end
    &&& if r.next_tok_start == r.end {
        from < r.end - 1 && r.start < r.end - 1 && r.next_pos == r.end
    } else {
        &&& from < r.ws_start < r.next_tok_start < r.end
        &&& r.start < r.ws_start
        &&& (r.next_pos == r.next_tok_start || r.next_pos == r.end)
    }
}

/// Every region that the scanner finds fits the scan.
pub proof fn lemma_period_scan_bounds<P: DefinesNonWordCharacters + DefinesSentenceEndings>(
    s: Seq<char>,
    from: int,
    pos: int,
    st: PeriodState,
)
    requires
        0 <= from <= pos <= s.len(),
        period_state_fits(st, from, pos),
    ensures
        period_scan::<P>(s, pos, st) matches Some(r) ==> region_fits(r, from, s.len() as int),
    decreases s.len() - pos,
{
    if pos < s.len() {
        let c = s[pos];
        if P::sentence_endings().contains(c) {
            lemma_period_scan_bounds::<P>(
                s,
                from,
                pos + 1,
                PeriodState {
                    sent_end: true,
                    astart: if st.updt_stt {
                        pos
                    } else {
                        st.astart
                    },
                    updt_stt: false,
                    updt_ret: st.updt_ret || st.capt_tok,
                    ..st
                },
            );
        } else if !st.sent_end {
            if whitespace_char(c) {
                lemma_period_scan_bounds::<P>(
                    s,
                    from,
                    pos + 1,
                    PeriodState { updt_stt: true, ..st },
                );
            } else if st.updt_stt {
                lemma_period_scan_bounds::<P>(
                    s,
                    from,
                    pos + 1,
                    PeriodState { astart: pos, updt_stt: false, ..st },
                );
            } else {
                lemma_period_scan_bounds::<P>(s, from, pos + 1, st);
            }
        } else if !st.tokn_beg {
            if whitespace_char(c) {
                lemma_period_scan_bounds::<P>(
                    s,
                    from,
                    pos + 1,
                    PeriodState { tokn_beg: true, wstart: pos, ..st },
                );
            } else if P::nonword_chars().contains(c) {
                lemma_lookahead_bounds::<P>(s, pos + 1);
                match lookahead::<P>(s, pos + 1) {
                    Some(x) => {
                        lemma_period_scan_bounds::<P>(
                            s,
                            from,
                            after_lookahead(s, x),
                            PeriodState { nstart: pos + 1, ..st },
                        );
                    },
                    None => {},
                }
            } else {
                lemma_period_scan_bounds::<P>(
                    s,
                    from,
                    pos + 1,
                    PeriodState { sent_end: false, ..st },
                );
            }
        } else if !st.capt_tok {
            if !whitespace_char(c) {
                lemma_period_scan_bounds::<P>(
                    s,
                    from,
                    pos + 1,
                    PeriodState { nstart: pos, capt_tok: true, ..st },
                );
            } else {
                lemma_period_scan_bounds::<P>(s, from, pos + 1, st);
            }
        } else if whitespace_char(c) {
        } else {
            lemma_period_scan_bounds::<P>(s, from, pos + 1, st);
        }
    }
}

/// Whether all characters of `s` from `from` up to `to` are white space or
/// sentence-ending characters.
pub open spec fn idle<P: DefinesSentenceEndings>(s: Seq<char>, from: int, to: int) -> bool {
    forall|p: int|
        from <= p < to ==> whitespace_char(#[trigger] s[p]) || P::sentence_endings().contains(s[p])
}

/// Whether what a scan in state `st` at `pos` has passed behind the start of
/// the white space, up to the token behind it or up to `pos`, is white space
/// or sentence-ending characters.
pub open spec fn period_state_idle<P: DefinesSentenceEndings>(
    s: Seq<char>,
    st: PeriodState,
    pos: int,
) -> bool {
    st.tokn_beg ==> if st.capt_tok {
        idle::<P>(s, st.wstart, st.nstart)
    } else {
        idle::<P>(s, st.wstart, pos)
    }
}

/// In a region that white space and a token end, all that stands between
/// the start of that white space and the start of that token is white space
/// or sentence-ending characters.
pub proof fn lemma_period_scan_gap<P: DefinesNonWordCharacters + DefinesSentenceEndings>(
    s: Seq<char>,
    from: int,
    pos: int,
    st: PeriodState,
)
    requires
        0 <= from <= pos <= s.len(),
        period_state_fits(st, from, pos),
        period_state_idle::<P>(s, st, pos),
    ensures
        period_scan::<P>(s, pos, st) matches Some(r) ==> (r.next_tok_start != r.end ==> idle::<P>(
            s,
            r.ws_start,
            r.next_tok_start,
        )),
    decreases s.len() - pos,
{
    if pos < s.len() {
        let c = s[pos];
        if P::sentence_endings().contains(c) {
            lemma_period_scan_gap::<P>(
                s,
                from,
                pos + 1,
                PeriodState {
                    sent_end: true,
                    astart: if st.updt_stt {
                        pos
                    } else {
                        st.astart
                    },
                    updt_stt: false,
                    updt_ret: st.updt_ret || st.capt_tok,
                    ..st
                },
            );
        } else if !st.sent_end {
            if whitespace_char(c) {
                lemma_period_scan_gap::<P>(s, from, pos + 1, PeriodState { updt_stt: true, ..st });
            } else if st.updt_stt {
                lemma_period_scan_gap::<P>(
                    s,
                    from,
                    pos + 1,
                    PeriodState { astart: pos, updt_stt: false, ..st },
                );
            } else {
                lemma_period_scan_gap::<P>(s, from, pos + 1, st);
            }
        } else if !st.tokn_beg {
            if whitespace_char(c) {
                lemma_period_scan_gap::<P>(
                    s,
                    from,
                    pos + 1,
                    PeriodState { tokn_beg: true, wstart: pos, ..st },
                );
            } else if P::nonword_chars().contains(c) {
                lemma_lookahead_bounds::<P>(s, pos + 1);
                match lookahead::<P>(s, pos + 1) {
                    Some(x) => {
                        lemma_period_scan_gap::<P>(
                            s,
                            from,
                            after_lookahead(s, x),
                            PeriodState { nstart: pos + 1, ..st },
                        );
                    },
                    None => {},
                }
            } else {
                lemma_period_scan_gap::<P>(
                    s,
                    from,
                    pos + 1,
                    PeriodState { sent_end: false, ..st },
                );
            }
        } else if !st.capt_tok {
            if !whitespace_char(c) {
                lemma_period_scan_gap::<P>(
                    s,
                    from,
                    pos + 1,
                    PeriodState { nstart: pos, capt_tok: true, ..st },
                );
            } else {
                lemma_period_scan_gap::<P>(s, from, pos + 1, st);
            }
        } else if whitespace_char(c) {
        } else {
            lemma_period_scan_gap::<P>(s, from, pos + 1, st);
        }
    }
}

/// Finds the regions of a text around its sentence-ending characters, one
/// with each call of `next`.
pub struct PeriodContextTokenizer<P> {
    doc: Vec<char>,
    pos: usize,
    params: PhantomData<P>,
}

impl<P: DefinesNonWordCharacters + DefinesSentenceEndings> PeriodContextTokenizer<P> {
    /// The text that is scanned.
    pub closed spec fn text(&self) -> Seq<char> {
        self.doc@
    }

    /// Where in the text the scanner stands.
    pub closed spec fn position(&self) -> int {
        self.pos as int
    }

    /// Whether the scanner stands within its text.
    pub closed spec fn wf(&self) -> bool {
        self.pos <= self.doc.len()
    }

    /// A scanner at the start of `doc`.
    pub fn new(doc: &str) -> (t: PeriodContextTokenizer<P>)
        ensures
            t.wf(),
            t.text() == doc@,
            t.position() == 0,
    {
        PeriodContextTokenizer { doc: chars_of(doc), pos: 0, params: PhantomData }
    }

    /// A scanner at the start of the characters `doc`.
    pub fn from_chars(doc: Vec<char>) -> (t: PeriodContextTokenizer<P>)
        ensures
            t.wf(),
            t.text() == doc@,
            t.position() == 0,
    {
        PeriodContextTokenizer { doc, pos: 0, params: PhantomData }
    }

    /// The characters that are scanned.
    pub fn chars(&self) -> (v: &Vec<char>)
        ensures
            v@ == self.text(),
    {
        &self.doc
    }

    /// The text of a region.
    pub fn slice(&self, region: &Region) -> (r: String)
        requires
            region.start <= region.end <= self.text().len(),
        ensures
            r@ == self.text().subrange(region.start as int, region.end as int),
    {
        string_of(&self.doc, region.start, region.end)
    }

    /// Whether the text is used up.
    pub fn is_exhausted(&self) -> (b: bool)
        requires
            self.wf(),
        ensures
            b == (self.position() == self.text().len()),
    {
        self.pos == self.doc.len()
    }

    /// Looks ahead from where the scanner stands, to see whether the
    /// sentence-ending character before it ended its token. `None` if it
    /// did; else the place to which the scan can skip.
    fn lookahead_is_token(&self) -> (r: Option<usize>)
        requires
            self.pos <= self.doc.len(),
        ensures
            match lookahead::<P>(self.doc@, self.pos as int) {
                Some(x) => r == Some(x as usize) && self.pos <= x <= self.doc.len(),
                None => r is None,
            },
    {
        let mut pos = self.pos;
        while pos < self.doc.len()
            invariant
                self.pos <= pos <= self.doc.len(),
                lookahead::<P>(self.doc@, pos as int) == lookahead::<P>(
                    self.doc@,
                    self.pos as int,
                ),
            decreases self.doc.len() - pos,
        {
            let cur = self.doc[pos];
            if cur.is_whitespace() {
                return None;
            }
            if P::is_sentence_ending(&cur) {
                if pos + 1 < self.doc.len() {
                    let nxt = self.doc[pos + 1];
                    if nxt.is_whitespace() || P::is_nonword_char(&nxt) {
                        return Some(pos);
                    }
                } else {
                    return Some(pos);
                }
            }
            pos += 1;
        }
        Some(pos)
    }

    /// The next region of the text, and `None` once the text is used up.
    /// The scanner then stands where the scan for the region after it
    /// begins: at the end of the region, or at the start of its last token
    /// where that holds a sentence-ending character.
    pub fn next(&mut self) -> (r: Option<Region>)
        requires
            old(self).wf(),
        ensures
            final(self).wf(),
            final(self).text() == old(self).text(),
            match next_region::<P>(old(self).text(), old(self).position()) {
                Some(span) => r == Some(
                    Region {
                        start: span.start as usize,
                        next_tok_start: span.next_tok_start as usize,
                        ws_start: span.ws_start as usize,
                        end: span.end as usize,
                    },
                ) && final(self).position() == span.next_pos && region_fits(
                    span,
                    old(self).position(),
                    old(self).text().len() as int,
                ),
                None => r is None && final(self).position() == old(self).text().len(),
            },
    {
        let ghost from = self.pos as int;
        let ghost goal = next_region::<P>(self.doc@, from);
        let mut astart = self.pos;
        let mut wstart = self.pos;
        let mut nstart = self.pos;
        let mut sent_end = false;
        let mut tokn_beg = false;
        let mut capt_tok = false;
        let mut updt_stt = false;
        let mut updt_ret = false;
        let ghost st = initial_period_state(from);
        while self.pos < self.doc.len()
            invariant
                self.doc@ == old(self).doc@,
                from == old(self).pos,
                goal == next_region::<P>(old(self).doc@, from),
                0 <= from <= self.pos <= self.doc.len(),
                st == (PeriodState {
                    astart: astart as int,
                    wstart: wstart as int,
                    nstart: nstart as int,
                    sent_end,
                    tokn_beg,
                    capt_tok,
                    updt_stt,
                    updt_ret,
                }),
                period_state_fits(st, from, self.pos as int),
                period_scan::<P>(self.doc@, self.pos as int, st) == goal,
            decreases self.doc.len() - self.pos,
        {
            let cur = self.doc[self.pos];
            proof {
                lemma_period_scan_bounds::<P>(self.doc@, from, self.pos as int, st);
            }
            if P::is_sentence_ending(&cur) {
                sent_end = true;
                if updt_stt {
                    astart = self.pos;
                    updt_stt = false;
                }
                if capt_tok {
                    updt_ret = true;
                }
            } else if !sent_end {
                if cur.is_whitespace() {
                    updt_stt = true;
                } else if updt_stt {
                    astart = self.pos;
                    updt_stt = false;
                }
            } else if !tokn_beg {
                if cur.is_whitespace() {
                    tokn_beg = true;
                    wstart = self.pos;
                } else if P::is_nonword_char(&cur) {
                    self.pos += 1;
                    nstart = self.pos;
                    match self.lookahead_is_token() {
                        Some(x) => {
                            proof {
                                st = PeriodState { nstart: nstart as int, ..st };
                            }
                            if x < self.doc.len() {
                                self.pos = x + 1;
                            } else {
                                self.pos = x;
                            }
                            continue ;
                        },
                        None => {
                            return Some(
                                Region {
                                    start: astart,
                                    next_tok_start: nstart,
                                    ws_start: wstart,
                                    end: self.pos,
                                },
                            );
                        },
                    }
                } else {
                    sent_end = false;
                }
            } else if !capt_tok {
                if !cur.is_whitespace() {
                    nstart = self.pos;
                    capt_tok = true;
                }
            } else if cur.is_whitespace() {
                let end = self.pos;
                if updt_ret {
                    self.pos = nstart;
                }
                return Some(
                    Region { start: astart, next_tok_start: nstart, ws_start: wstart, end },
                );
            }
            proof {
                st = PeriodState {
                    astart: astart as int,
                    wstart: wstart as int,
                    nstart: nstart as int,
                    sent_end,
                    tokn_beg,
                    capt_tok,
                    updt_stt,
                    updt_ret,
                };
            }
            self.pos += 1;
        }
        None
    }
}

} // verus!
