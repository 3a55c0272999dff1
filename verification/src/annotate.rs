//! The two passes that decide whether a token is an abbreviation or ends a
//! sentence, and the orthographic heuristic that the second pass asks.

use vstd::prelude::*;
use vstd::string::*;
use crate::data::{TrainingData, TrainingDataView};
use crate::ortho::{BEG_LC, MID_UC, ORT_LC, ORT_UC};
use crate::params::{DefinesPunctuation, DefinesSentenceEndings};
use crate::text::{chars_of, string_of};
use crate::token::{Token, TokenView};

verus! {

/// The part of `s` after its last dash; all of `s` where it has none.
pub open spec fn split_suffix(s: Seq<char>) -> Seq<char>
    decreases s.len(),
{
    if s.len() == 0 {
        s
    } else if s.last() == '-' {
        Seq::empty()
    } else {
        split_suffix(s.drop_last()).push(s.last())
    }
}

/// The part of `s` after its last dash, given where that part begins.
proof fn lemma_split_suffix(s: Seq<char>, at: int)
    requires
        0 <= at <= s.len(),
        at > 0 ==> s[at - 1] == '-',
        forall|i: int| at <= i < s.len() ==> s[i] != '-',
    ensures
        split_suffix(s) == s.subrange(at, s.len() as int),
    decreases s.len(),
{
    if s.len() == 0 {
        assert(s.subrange(at, s.len() as int) =~= s);
    } else if at == s.len() {
        assert(s.subrange(at, s.len() as int) =~= Seq::<char>::empty());
    } else {
        lemma_split_suffix(s.drop_last(), at);
        assert(s.drop_last().subrange(at, s.len() - 1).push(s.last()) =~= s.subrange(
            at,
            s.len() as int,
        ));
    }
}

/// The part of `s` after its last dash, as a new string.
pub fn suffix_after_dash(s: &str) -> (r: String)
    ensures
        r@ == split_suffix(s@),
{
    let v = chars_of(s);
    let mut at: usize = v.len();
    while at > 0 && v[at - 1] != '-'
        invariant
            at <= v.len(),
            forall|i: int| at <= i < v.len() ==> v@[i] != '-',
        decreases at,
    {
        at -= 1;
    }
    proof {
        lemma_split_suffix(v@, at as int);
    }
    string_of(&v, at, v.len())
}

/// The token after the first pass: a token that is one sentence-ending
/// character ends a sentence; any other token with a final period that is
/// not an ellipsis is an abbreviation where the data knows it, or the part
/// after its last dash, as one, and ends a sentence where it does not.
pub open spec fn first_pass<P: DefinesSentenceEndings>(
    t: TokenView,
    d: TrainingDataView,
) -> TokenView {
    if t.tok().len() == 1 && P::sentence_endings().contains(t.tok()[0]) {
        TokenView { is_sentence_break: true, ..t }
    } else if t.has_final_period && !t.is_ellipsis {
        if d.contains_abbrev(split_suffix(t.tok())) || d.contains_abbrev(t.tok_without_period()) {
            TokenView { is_abbrev: true, ..t }
        } else {
            TokenView { is_sentence_break: true, ..t }
        }
    } else {
        t
    }
}

/// Makes the first pass over `tok`: marks it as an abbreviation or as the
/// end of a sentence, by what `data` knows.
pub fn annotate_first_pass<P: DefinesSentenceEndings>(tok: &mut Token, data: &TrainingData)
    ensures
        final(tok)@ == first_pass::<P>(old(tok)@, data@),
        old(tok)@.wf() ==> final(tok)@.wf(),
{
    let text = tok.tok();
    let single = text.unicode_len() == 1 && P::is_sentence_ending(&text.get_char(0));
    if single {
        tok.set_is_sentence_break(true);
    } else if tok.has_final_period() && !tok.is_ellipsis() {
        let suffix = suffix_after_dash(tok.tok());
        if data.contains_abbrev(suffix.as_str()) || data.contains_abbrev(
            tok.tok_without_period(),
        ) {
            tok.set_is_abbrev(true);
        } else {
            tok.set_is_sentence_break(true);
        }
    }
}

/// What the orthographic heuristic says of the token `t`: whether it is the
/// first of a sentence, where the record of its type decides that.
pub open spec fn ortho_decision<P: DefinesPunctuation>(
    t: TokenView,
    d: TrainingDataView,
) -> Option<bool> {
    if t.tok().len() > 0 && P::punctuation().contains(t.tok()[0]) {
        Some(false)
    } else {
        let ctxt = d.ortho(t.typ_without_break_or_period());
        if t.is_uppercase && (ctxt & ORT_LC != 0) && (ctxt & MID_UC == 0) {
            Some(true)
        } else if t.is_lowercase && ((ctxt & ORT_UC != 0) || (ctxt & BEG_LC == 0)) {
            Some(false)
        } else {
            None
        }
    }
}

/// Decides from the case of `tok` and the record of its type whether it is
/// the first token of a sentence. `None` where the record does not decide.
pub fn orthographic_heuristic<P: DefinesPunctuation>(tok: &Token, data: &TrainingData) -> (r:
    Option<bool>)
    ensures
        r == ortho_decision::<P>(tok@, data@),
{
    let text = tok.tok();
    if !text.is_empty() && P::is_punctuation(&text.get_char(0)) {
        Some(false)
    } else {
        let ctxt = data.get_orthographic_context(tok.typ_without_break_or_period());
        if tok.is_uppercase() && (ctxt & ORT_LC != 0) && (ctxt & MID_UC == 0) {
            Some(true)
        } else if tok.is_lowercase() && ((ctxt & ORT_UC != 0) || (ctxt & BEG_LC == 0)) {
            Some(false)
        } else {
            None
        }
    }
}

/// The token before `cur` after the second pass.
///
/// A known collocation of the two makes it an abbreviation that ends no
/// sentence. Else an abbreviation or an ellipsis that is no initial ends a
/// sentence where the heuristic says that `cur` starts one, or where `cur`
/// is in upper case and a known sentence starter. Else an initial or a
/// number is an abbreviation that ends no sentence where the heuristic says
/// that `cur` starts none, or where it is an initial, the heuristic is
/// silent, and `cur` is in upper case and was never seen in lower case.
pub open spec fn second_pass<P: DefinesPunctuation>(
    cur: TokenView,
    prv: TokenView,
    d: TrainingDataView,
) -> TokenView {
    let dec = ortho_decision::<P>(cur, d);
    if d.contains_collocation(prv.typ_without_period(), cur.typ_without_break_or_period()) {
        TokenView { is_abbrev: true, is_sentence_break: false, ..prv }
    } else if (prv.is_abbrev || prv.is_ellipsis) && !prv.is_initial && dec == Some(true) {
        TokenView { is_sentence_break: true, ..prv }
    } else if (prv.is_abbrev || prv.is_ellipsis) && !prv.is_initial && cur.is_uppercase
        && d.contains_sentence_starter(cur.typ_without_break_or_period()) {
        TokenView { is_sentence_break: true, ..prv }
    } else if (prv.is_initial || prv.is_numeric) && dec == Some(false) {
        TokenView { is_sentence_break: false, is_abbrev: true, ..prv }
    } else if (prv.is_initial || prv.is_numeric) && dec.is_none() && prv.is_initial
        && cur.is_uppercase && d.ortho(cur.typ_without_break_or_period()) & ORT_LC == 0 {
        TokenView { is_sentence_break: false, is_abbrev: true, ..prv }
    } else {
        prv
    }
}

/// Makes the second pass over `prv`, the token before `cur`: revises what
/// the first pass said of it, by the collocations, the sentence starters
/// and the orthographic context that `data` knows. `cur` stays as it is.
pub fn annotate_second_pass<P: DefinesPunctuation>(
    cur: &mut Token,
    prv: &mut Token,
    data: &TrainingData,
)
    requires
        data.wf(),
    ensures
        final(prv)@ == second_pass::<P>(old(cur)@, old(prv)@, data@),
        final(cur)@ == old(cur)@,
        old(prv)@.wf() ==> final(prv)@.wf(),
{
    if data.contains_collocation(prv.typ_without_period(), cur.typ_without_break_or_period()) {
        prv.set_is_abbrev(true);
        prv.set_is_sentence_break(false);
        return ;
    }
    if (prv.is_abbrev() || prv.is_ellipsis()) && !prv.is_initial() {
        let dec = orthographic_heuristic::<P>(cur, data);
        if dec == Some(true) {
            prv.set_is_sentence_break(true);
            return ;
        }
        if cur.is_uppercase() && data.contains_sentence_starter(
            cur.typ_without_break_or_period(),
        ) {
            prv.set_is_sentence_break(true);
            return ;
        }
    }
    if prv.is_initial() || prv.is_numeric() {
        let ortho_dec = orthographic_heuristic::<P>(cur, data);
        if ortho_dec == Some(false) {
            prv.set_is_sentence_break(false);
            prv.set_is_abbrev(true);
            return ;
        }
        let ctxt = data.get_orthographic_context(cur.typ_without_break_or_period());
        if ortho_dec.is_none() && prv.is_initial() && cur.is_uppercase() && ctxt & ORT_LC == 0 {
            prv.set_is_sentence_break(false);
            prv.set_is_abbrev(true);
        }
    }
}

} // verus!
