//! The trainer: what it counts in a text, which tokens and pairs it puts
//! before the scores, and what it writes into the training data once the
//! scores have spoken.
//!
//! The scores are logarithms and powers of the counts. They are computed by the
//! caller, who gets the counts as evidence, one record for each candidate,
//! and hands back one verdict for each.

use std::marker::PhantomData;
use vstd::prelude::*;
use vstd::multiset::*;
use vstd::string::*;
use crate::annotate::{annotate_first_pass, first_pass};
use crate::data::{TrainingData, TrainingDataView};
use crate::freq::{FrequencyDistribution, PairDistribution};
use crate::ortho::{
    context_flag, orthographic_flag, OrthographyPosition, BEG_UC, MID_UC,
};
use crate::params::{
    DefinesNonPrefixCharacters, DefinesNonWordCharacters, TrainerParameters,
};
use crate::text::chars_of;
use crate::token::{str_eq, Token, TokenView};
use crate::word::{tokens_of, WordTokenizer};

verus! {

broadcast use group_multiset_axioms;

/// A pair of tokens that stand side by side. Two collocations are the same
/// where the type of the left token without its period is, and the type of
/// the right token without its break or period.
pub struct Collocation<'a> {
    l: &'a Token,
    r: &'a Token,
}

impl<'a> Collocation<'a> {
    /// The left token.
    pub closed spec fn l(&self) -> TokenView {
        self.l@
    }

    /// The right token.
    pub closed spec fn r(&self) -> TokenView {
        self.r@
    }

    /// The two types by which the collocation is known.
    pub open spec fn key(&self) -> (Seq<char>, Seq<char>) {
        (self.l().typ_without_period(), self.r().typ_without_break_or_period())
    }

    /// The collocation of `l` and `r`.
    pub fn new(l: &'a Token, r: &'a Token) -> (c: Collocation<'a>)
        ensures
            c.l() == l@,
            c.r() == r@,
    {
        Collocation { l, r }
    }

    /// The left token.
    pub fn left(&self) -> (t: &'a Token)
        ensures
            t@ == self.l(),
    {
        self.l
    }

    /// The right token.
    pub fn right(&self) -> (t: &'a Token)
        ensures
            t@ == self.r(),
    {
        self.r
    }

    /// Whether the two collocations are known by the same two types.
    pub fn same(&self, other: &Collocation<'a>) -> (b: bool)
        ensures
            b == (self.key() == other.key()),
    {
        str_eq(self.l.typ_without_period(), other.l.typ_without_period()) && str_eq(
            self.r.typ_without_break_or_period(),
            other.r.typ_without_break_or_period(),
        )
    }
}

/// The views of the tokens.
pub open spec fn views(tokens: Seq<Token>) -> Seq<TokenView> {
    tokens.map_values(|t: Token| t@)
}

/// The types of the first `n` tokens, each as often as it occurs.
pub open spec fn types_upto(tokens: Seq<TokenView>, n: int) -> Multiset<Seq<char>>
    decreases n,
{
    if n <= 0 {
        Multiset::empty()
    } else {
        types_upto(tokens, n - 1).insert(tokens[n - 1].typ())
    }
}

/// How many of the first `n` tokens have a final period.
pub open spec fn periods_upto(tokens: Seq<TokenView>, n: int) -> nat
    decreases n,
{
    if n <= 0 {
        0
    } else if tokens[n - 1].has_final_period {
        periods_upto(tokens, n - 1) + 1
    } else {
        periods_upto(tokens, n - 1)
    }
}

/// How many of the first `n` tokens end a sentence.
pub open spec fn breaks_upto(tokens: Seq<TokenView>, n: int) -> nat
    decreases n,
{
    if n <= 0 {
        0
    } else if tokens[n - 1].is_sentence_break {
        breaks_upto(tokens, n - 1) + 1
    } else {
        breaks_upto(tokens, n - 1)
    }
}

/// How often `c` occurs among the first `n` characters of `s`.
pub open spec fn occurrences(s: Seq<char>, c: char, n: int) -> nat
    decreases n,
{
    if n <= 0 {
        0
    } else if s[n - 1] == c {
        occurrences(s, c, n - 1) + 1
    } else {
        occurrences(s, c, n - 1)
    }
}

/// The counts from which the score of a candidate abbreviation is computed.
#[derive(Clone, Copy, Debug, PartialEq, Eq, Structural)]
pub struct AbbrevEvidence {
    /// One more than the number of periods in the type without its final
    /// period.
    pub num_periods: usize,
    /// The number of other characters in the type without its final period.
    pub num_nonperiods: usize,
    /// How often the type occurs with a final period.
    pub count_with_period: usize,
    /// How often the type occurs without a final period.
    pub count_without_period: usize,
    /// How many tokens of the text have a final period.
    pub period_token_count: usize,
    /// How many tokens the text has.
    pub total: usize,
}

/// A token whose standing as an abbreviation is put before the score.
pub struct AbbrevCandidate {
    /// The type of the token without its final period.
    pub typ: String,
    /// Whether the token has a final period.
    pub has_final_period: bool,
    /// The counts for the score.
    pub evidence: AbbrevEvidence,
}

/// What a candidate abbreviation holds.
pub struct AbbrevCandidateView {
    pub typ: Seq<char>,
    pub has_final_period: bool,
    pub evidence: AbbrevEvidence,
}

impl View for AbbrevCandidate {
    type V = AbbrevCandidateView;

    open spec fn view(&self) -> AbbrevCandidateView {
        AbbrevCandidateView {
            typ: self.typ@,
            has_final_period: self.has_final_period,
            evidence: self.evidence,
        }
    }
}

/// Whether the standing of the token `t` as an abbreviation is open: it is
/// more than punctuation and no number, and it has a final period and is
/// not known as an abbreviation, or has none and is known as one.
pub open spec fn reclassify_candidate(t: TokenView, d: TrainingDataView) -> bool {
    t.is_non_punct() && !t.is_numeric && (t.has_final_period != d.contains_abbrev(t.typ()))
}

/// The counts for the score of the token `t`, in a text with the types
/// `counts` of which `periods` have a final period.
pub open spec fn abbrev_evidence(
    t: TokenView,
    counts: Multiset<Seq<char>>,
    periods: nat,
) -> AbbrevEvidence {
    let stem = t.typ_without_period();
    let dots = occurrences(stem, '.', stem.len() as int);
    AbbrevEvidence {
        num_periods: (dots + 1) as usize,
        num_nonperiods: (stem.len() - dots) as usize,
        count_with_period: counts.count(t.typ_with_period()) as usize,
        count_without_period: counts.count(t.typ_without_period()) as usize,
        period_token_count: periods as usize,
        total: counts.len() as usize,
    }
}

/// The candidate abbreviations among the first `n` tokens, in the order of
/// the text.
pub open spec fn abbrev_candidates_upto(
    tokens: Seq<TokenView>,
    n: int,
    counts: Multiset<Seq<char>>,
    periods: nat,
    d: TrainingDataView,
) -> Seq<AbbrevCandidateView>
    decreases n,
{
    if n <= 0 {
        Seq::empty()
    } else {
        let before = abbrev_candidates_upto(tokens, n - 1, counts, periods, d);
        let t = tokens[n - 1];
        if reclassify_candidate(t, d) {
            before.push(
                AbbrevCandidateView {
                    typ: t.typ_without_period(),
                    has_final_period: t.has_final_period,
                    evidence: abbrev_evidence(t, counts, periods),
                },
            )
        } else {
            before
        }
    }
}

/// The data after the verdicts on the first `n` candidates: a candidate
/// with a final period whose score reached the bound is an abbreviation; one
/// without a final period whose score did not is none.
pub open spec fn reclassified(
    d: TrainingDataView,
    candidates: Seq<AbbrevCandidateView>,
    verdicts: Seq<bool>,
    n: int,
) -> TrainingDataView
    decreases n,
{
    if n <= 0 {
        d
    } else {
        let before = reclassified(d, candidates, verdicts, n - 1);
        let c = candidates[n - 1];
        if verdicts[n - 1] && c.has_final_period {
            before.with_abbrev(c.typ)
        } else if !verdicts[n - 1] && !c.has_final_period {
            before.without_abbrev(c.typ)
        } else {
            before
        }
    }
}

/// Whether the token `t0`, which ends a sentence and is followed by `t1`,
/// is a rare abbreviation after all: it is seen less often than the bound,
/// and `t1` begins with punctuation that stands within words, or is in lower
/// case and was seen in upper case at the start of a sentence only.
pub open spec fn rare_abbrev_type<P: TrainerParameters>(
    d: TrainingDataView,
    counts: Multiset<Seq<char>>,
    t0: TokenView,
    t1: TokenView,
) -> bool {
    if t0.is_abbrev || !t0.is_sentence_break {
        false
    } else {
        let key = t0.typ_without_break_or_period();
        let trimmed = if key.len() > 0 {
            key.drop_last()
        } else {
            key
        };
        let count = counts.count(key) + counts.count(trimmed);
        if d.contains_abbrev(t0.typ()) || count >= P::spec_abbrev_upper_bound() {
            false
        } else if t1.typ().len() > 0 && P::internal_punctuation().contains(t1.typ()[0]) {
            true
        } else if t1.is_lowercase {
            let ctxt = d.ortho(t1.typ_without_break_or_period());
            (ctxt & BEG_UC > 0) && !(ctxt & MID_UC > 0)
        } else {
            false
        }
    }
}

/// Whether `cur` may start sentences: the token before it ends a sentence
/// and is neither a number nor an initial, and `cur` is alphabetic.
pub open spec fn potential_sentence_starter(cur: TokenView, prev: TokenView) -> bool {
    prev.is_sentence_break && !(prev.is_numeric || prev.is_initial) && cur.is_alphabetic
}

/// Whether `t0` and `t1` may be a collocation: both are more than
/// punctuation, and all pairs are taken, or those behind an abbreviation are
/// and `t0` is one, or `t0` ends a sentence and is a number or an initial.
pub open spec fn potential_collocation<P: TrainerParameters>(t0: TokenView, t1: TokenView) -> bool {
    t0.is_non_punct() && t1.is_non_punct() && (P::spec_include_all_collocations() || (
    P::spec_include_abbrev_collocations() && t0.is_abbrev) || (t0.is_sentence_break && (
    t0.is_numeric || t0.is_initial)))
}

/// Whether the token `tok0`, followed by `tok1`, is a rare abbreviation.
pub fn is_rare_abbrev_type<P: TrainerParameters>(
    data: &TrainingData,
    type_fdist: &FrequencyDistribution,
    tok0: &Token,
    tok1: &Token,
) -> (b: bool)
    requires
        type_fdist.wf(),
    ensures
        b == rare_abbrev_type::<P>(data@, type_fdist@, tok0@, tok1@),
{
    if tok0.is_abbrev() || !tok0.is_sentence_break() {
        false
    } else {
        let key = tok0.typ_without_break_or_period();
        let n = key.unicode_len();
        let trimmed = if n > 0 {
            key.substring_char(0, n - 1)
        } else {
            key
        };
        let a = type_fdist.get(key);
        let b = type_fdist.get(trimmed);
        let bound = P::abbrev_upper_bound();
        let frequent = a >= bound || b >= bound - a;
        if data.contains_abbrev(tok0.typ()) || frequent {
            false
        } else {
            let next = tok1.typ();
            if !next.is_empty() && P::is_internal_punctuation(&next.get_char(0)) {
                true
            } else if tok1.is_lowercase() {
                let ctxt = data.get_orthographic_context(tok1.typ_without_break_or_period());
                (ctxt & BEG_UC > 0) && !(ctxt & MID_UC > 0)
            } else {
                false
            }
        }
    }
}

/// Whether `cur`, behind `prev`, may start sentences.
pub fn is_potential_sentence_starter(cur: &Token, prev: &Token) -> (b: bool)
    ensures
        b == potential_sentence_starter(cur@, prev@),
{
    prev.is_sentence_break() && !(prev.is_numeric() || prev.is_initial()) && cur.is_alphabetic()
}

/// Whether `tok0` and `tok1` may be a collocation.
pub fn is_potential_collocation<P: TrainerParameters>(tok0: &Token, tok1: &Token) -> (b: bool)
    ensures
        b == potential_collocation::<P>(tok0@, tok1@),
{
    tok0.is_non_punct() && tok1.is_non_punct() && (P::include_all_collocations() || (
    P::include_abbrev_collocations() && tok0.is_abbrev()) || (tok0.is_sentence_break() && (
    tok0.is_numeric() || tok0.is_initial())))
}

/// Gathers from a text what the sentence tokenizer needs to know: its
/// abbreviations, sentence starters and collocations, and the orthographic
/// context of its types.
pub struct Trainer<P> {
    params: PhantomData<P>,
}

impl<P: TrainerParameters + DefinesNonPrefixCharacters + DefinesNonWordCharacters> Trainer<P> {
    /// A new trainer.
    pub fn new() -> Trainer<P> {
        Trainer { params: PhantomData }
    }

    /// The tokens of `doc`, in the order of the text.
    pub fn tokenize(&self, doc: &str) -> (tokens: Vec<Token>)
        ensures
            views(tokens@) == tokens_of::<P>(doc@),
            forall|i: int| 0 <= i < tokens.len() ==> (#[trigger] tokens[i])@.wf(),
    {
        WordTokenizer::<P>::tokens(doc)
    }

    /// Counts the types of the tokens, and the tokens with a final period.
    pub fn count_types(&self, tokens: &Vec<Token>) -> (r: (FrequencyDistribution, usize))
        ensures
            r.0.wf(),
            r.0@ == types_upto(views(tokens@), tokens.len() as int),
            r.0@.len() == tokens.len(),
            r.1 == periods_upto(views(tokens@), tokens.len() as int),
    {
        broadcast use group_multiset_properties;

        let mut fd = FrequencyDistribution::new();
        let mut periods: usize = 0;
        let mut i: usize = 0;
        while i < tokens.len()
            invariant
                i <= tokens.len(),
                fd.wf(),
                fd@ == types_upto(views(tokens@), i as int),
                fd@.len() == i,
                periods == periods_upto(views(tokens@), i as int),
                periods <= i,
            decreases tokens.len() - i,
        {
            let t = &tokens[i];
            assert(views(tokens@)[i as int] == t@);
            if t.has_final_period() {
                periods += 1;
            }
            fd.insert(t.typ());
            i += 1;
        }
        (fd, periods)
    }

    /// Whether the standing of `tok` as an abbreviation is put before the
    /// score.
    pub fn is_reclassify_candidate(&self, tok: &Token, data: &TrainingData) -> (b: bool)
        ensures
            b == reclassify_candidate(tok@, data@),
    {
        if !tok.is_non_punct() || tok.is_numeric() {
            false
        } else if tok.has_final_period() {
            !data.contains_abbrev(tok.typ())
        } else {
            data.contains_abbrev(tok.typ())
        }
    }

    /// The counts for the score of `tok`.
    pub fn evidence_for(
        &self,
        tok: &Token,
        type_fdist: &FrequencyDistribution,
        period_token_count: usize,
    ) -> (e: AbbrevEvidence)
        requires
            type_fdist.wf(),
        ensures
            e == abbrev_evidence(tok@, type_fdist@, period_token_count as nat),
    {
        let stem = chars_of(tok.typ_without_period());
        let mut dots: usize = 0;
        let mut i: usize = 0;
        while i < stem.len()
            invariant
                i <= stem.len(),
                dots == occurrences(stem@, '.', i as int),
                dots <= i,
            decreases stem.len() - i,
        {
            if stem[i] == '.' {
                dots += 1;
            }
            i += 1;
        }
        AbbrevEvidence {
            num_periods: dots + 1,
            num_nonperiods: stem.len() - dots,
            count_with_period: type_fdist.get(tok.typ_with_period()),
            count_without_period: type_fdist.get(tok.typ_without_period()),
            period_token_count,
            total: type_fdist.sum_counts(),
        }
    }

    /// The tokens whose standing as an abbreviation is put before the score,
    /// in the order of the text, each with the counts for its score.
    pub fn abbrev_candidates(
        &self,
        tokens: &Vec<Token>,
        type_fdist: &FrequencyDistribution,
        period_token_count: usize,
        data: &TrainingData,
    ) -> (r: Vec<AbbrevCandidate>)
        requires
            type_fdist.wf(),
        ensures
            r@.map_values(|c: AbbrevCandidate| c@) == abbrev_candidates_upto(
                views(tokens@),
                tokens.len() as int,
                type_fdist@,
                period_token_count as nat,
                data@,
            ),
    {
        let mut r: Vec<AbbrevCandidate> = Vec::new();
        let ghost tv = views(tokens@);
        let ghost counts = type_fdist@;
        let ghost periods = period_token_count as nat;
        let mut i: usize = 0;
        while i < tokens.len()
            invariant
                i <= tokens.len(),
                type_fdist.wf(),
                tv == views(tokens@),
                counts == type_fdist@,
                periods == period_token_count as nat,
                r@.map_values(|c: AbbrevCandidate| c@) == abbrev_candidates_upto(
                    tv,
                    i as int,
                    counts,
                    periods,
                    data@,
                ),
            decreases tokens.len() - i,
        {
            let t = &tokens[i];
            assert(tv[i as int] == t@);
            if self.is_reclassify_candidate(t, data) {
                let ghost before = r@.map_values(|c: AbbrevCandidate| c@);
                let c = AbbrevCandidate {
                    typ: t.typ_without_period().to_owned(),
                    has_final_period: t.has_final_period(),
                    evidence: self.evidence_for(t, type_fdist, period_token_count),
                };
                r.push(c);
                assert(r@.map_values(|c: AbbrevCandidate| c@) =~= before.push(c@));
            }
            i += 1;
        }
        r
    }

    /// Writes the verdicts on the candidates into `data`. A verdict is
    /// whether the score of the candidate reached the lower bound for
    /// abbreviations. Then a candidate with a final period becomes an
    /// abbreviation; against it, a candidate without a final period stops
    /// being one.
    pub fn reclassify_abbrevs(
        &self,
        data: &mut TrainingData,
        candidates: &Vec<AbbrevCandidate>,
        verdicts: &Vec<bool>,
    )
        requires
            old(data).wf(),
            candidates.len() == verdicts.len(),
        ensures
            final(data).wf(),
            final(data)@ == reclassified(
                old(data)@,
                candidates@.map_values(|c: AbbrevCandidate| c@),
                verdicts@,
                candidates.len() as int,
            ),
    {
        let ghost cv = candidates@.map_values(|c: AbbrevCandidate| c@);
        let mut i: usize = 0;
        while i < candidates.len()
            invariant
                i <= candidates.len(),
                candidates.len() == verdicts.len(),
                data.wf(),
                cv == candidates@.map_values(|c: AbbrevCandidate| c@),
                data@ == reclassified(old(data)@, cv, verdicts@, i as int),
            decreases candidates.len() - i,
        {
            let c = &candidates[i];
            assert(cv[i as int] == c@);
            if verdicts[i] {
                if c.has_final_period {
                    data.insert_abbrev(c.typ.as_str());
                }
            } else if !c.has_final_period {
                data.remove_abbrev(c.typ.as_str());
            }
            i += 1;
        }
    }
}

/// The position at which the token `t` is seen, where the token before it
/// left the position `before`: the start of a paragraph is the start of a
/// sentence unless the position is unknown, and the start of a line makes a
/// position inside a sentence unknown.
pub open spec fn position_at(t: TokenView, before: OrthographyPosition) -> OrthographyPosition {
    let p = if t.is_paragraph_start && before != OrthographyPosition::Unknown {
        OrthographyPosition::Initial
    } else {
        before
    };
    if t.is_newline_start && p == OrthographyPosition::Internal {
        OrthographyPosition::Unknown
    } else {
        p
    }
}

/// The position that the token `t` leaves for the token behind it: the
/// start of a sentence behind a token that ends one, unless that is a number
/// or an initial; unknown behind those, behind an ellipsis and behind an
/// abbreviation; inside a sentence behind every other token.
pub open spec fn position_after(t: TokenView) -> OrthographyPosition {
    if t.is_sentence_break {
        if !(t.is_numeric || t.is_initial) {
            OrthographyPosition::Initial
        } else {
            OrthographyPosition::Unknown
        }
    } else if t.is_ellipsis || t.is_abbrev {
        OrthographyPosition::Unknown
    } else {
        OrthographyPosition::Internal
    }
}

/// The position behind the first `n` tokens, and the data with the
/// orthographic context of those tokens added. A token whose case is unknown
/// adds nothing.
pub open spec fn ortho_pass_upto(
    tokens: Seq<TokenView>,
    n: int,
    d: TrainingDataView,
) -> (OrthographyPosition, TrainingDataView)
    decreases n,
{
    if n <= 0 {
        (OrthographyPosition::Internal, d)
    } else {
        let (before, data) = ortho_pass_upto(tokens, n - 1, d);
        let t = tokens[n - 1];
        let flag = context_flag(position_at(t, before), t.first_case());
        (
            position_after(t),
            if flag != 0 {
                data.with_ortho(t.typ_without_break_or_period(), flag)
            } else {
                data
            },
        )
    }
}

/// The data after the first `n` pairs of neighbours were looked at for rare
/// abbreviations: where the left token of a pair has a final period and is
/// a rare abbreviation by the data so far, its type without the period is
/// added to the abbreviations.
pub open spec fn rare_abbrevs_upto<P: TrainerParameters>(
    tokens: Seq<TokenView>,
    n: int,
    counts: Multiset<Seq<char>>,
    d: TrainingDataView,
) -> TrainingDataView
    decreases n,
{
    if n <= 0 {
        d
    } else {
        let before = rare_abbrevs_upto::<P>(tokens, n - 1, counts, d);
        let lt = tokens[n - 1];
        let rt = tokens[n];
        if lt.has_final_period && rare_abbrev_type::<P>(before, counts, lt, rt) {
            before.with_abbrev(lt.typ_without_period())
        } else {
            before
        }
    }
}

/// The places, among the first `n` tokens, of those that may start
/// sentences: each stands behind a token with a final period that ends a
/// sentence and is neither a number nor an initial, and is alphabetic.
pub open spec fn starter_positions_upto(tokens: Seq<TokenView>, n: int) -> Seq<usize>
    decreases n,
{
    if n <= 1 {
        Seq::empty()
    } else {
        let before = starter_positions_upto(tokens, n - 1);
        if tokens[n - 2].has_final_period && potential_sentence_starter(
            tokens[n - 1],
            tokens[n - 2],
        ) {
            before.push((n - 1) as usize)
        } else {
            before
        }
    }
}

/// The places, among the first `n` pairs of neighbours, of the left tokens
/// of those that may be collocations: the left token has a final period, and
/// the pair is a candidate by the parameters.
pub open spec fn collocation_positions_upto<P: TrainerParameters>(
    tokens: Seq<TokenView>,
    n: int,
) -> Seq<usize>
    decreases n,
{
    if n <= 0 {
        Seq::empty()
    } else {
        let before = collocation_positions_upto::<P>(tokens, n - 1);
        if tokens[n - 1].has_final_period && potential_collocation::<P>(tokens[n - 1], tokens[n]) {
            before.push((n - 1) as usize)
        } else {
            before
        }
    }
}

/// The types of the tokens at the first `k` of the places `at`, each as
/// often as it occurs.
pub open spec fn types_at_upto(tokens: Seq<TokenView>, at: Seq<usize>, k: int) -> Multiset<
    Seq<char>,
>
    decreases k,
{
    if k <= 0 {
        Multiset::empty()
    } else {
        types_at_upto(tokens, at, k - 1).insert(tokens[at[k - 1] as int].typ())
    }
}

/// Those of the first `k` places `at` at which a type is seen for the first
/// time.
pub open spec fn first_types_upto(tokens: Seq<TokenView>, at: Seq<usize>, k: int) -> Seq<usize>
    decreases k,
{
    if k <= 0 {
        Seq::empty()
    } else {
        let before = first_types_upto(tokens, at, k - 1);
        if types_at_upto(tokens, at, k - 1).count(tokens[at[k - 1] as int].typ()) == 0 {
            before.push(at[k - 1])
        } else {
            before
        }
    }
}

/// The two types by which the pair of the token at `i` and the token behind
/// it is known as a collocation.
pub open spec fn pair_key(tokens: Seq<TokenView>, i: int) -> (Seq<char>, Seq<char>) {
    (tokens[i].typ_without_period(), tokens[i + 1].typ_without_break_or_period())
}

/// The keys of the pairs at the first `k` of the places `at`, each as often
/// as it occurs.
pub open spec fn pairs_at_upto(tokens: Seq<TokenView>, at: Seq<usize>, k: int) -> Multiset<
    (Seq<char>, Seq<char>),
>
    decreases k,
{
    if k <= 0 {
        Multiset::empty()
    } else {
        pairs_at_upto(tokens, at, k - 1).insert(pair_key(tokens, at[k - 1] as int))
    }
}

/// Those of the first `k` places `at` at which a pair is seen for the first
/// time.
pub open spec fn first_pairs_upto(tokens: Seq<TokenView>, at: Seq<usize>, k: int) -> Seq<usize>
    decreases k,
{
    if k <= 0 {
        Seq::empty()
    } else {
        let before = first_pairs_upto(tokens, at, k - 1);
        if pairs_at_upto(tokens, at, k - 1).count(pair_key(tokens, at[k - 1] as int)) == 0 {
            before.push(at[k - 1])
        } else {
            before
        }
    }
}

/// The counts from which the score of a candidate sentence starter is
/// computed.
#[derive(Clone, Copy, Debug, PartialEq, Eq, Structural)]
pub struct StarterEvidence {
    /// How often the type was seen behind the end of a sentence.
    pub starter_count: usize,
    /// How often the type occurs with a final period.
    pub count_with_period: usize,
    /// How often the type occurs without a final period.
    pub count_without_period: usize,
    /// How many tokens of the text end a sentence.
    pub sentence_break_count: usize,
    /// How many tokens the text has.
    pub total: usize,
}

/// A type that is put before the score as a sentence starter.
pub struct StarterCandidate {
    /// The type.
    pub typ: String,
    /// The counts for the score.
    pub evidence: StarterEvidence,
}

/// What a candidate sentence starter holds.
pub struct StarterCandidateView {
    pub typ: Seq<char>,
    pub evidence: StarterEvidence,
}

impl View for StarterCandidate {
    type V = StarterCandidateView;

    open spec fn view(&self) -> StarterCandidateView {
        StarterCandidateView { typ: self.typ@, evidence: self.evidence }
    }
}

/// The counts for the score of the token `t` as a sentence starter.
pub open spec fn starter_evidence(
    t: TokenView,
    starters: Multiset<Seq<char>>,
    counts: Multiset<Seq<char>>,
    breaks: nat,
) -> StarterEvidence {
    StarterEvidence {
        starter_count: starters.count(t.typ()) as usize,
        count_with_period: counts.count(t.typ_with_period()) as usize,
        count_without_period: counts.count(t.typ_without_period()) as usize,
        sentence_break_count: breaks as usize,
        total: counts.len() as usize,
    }
}

/// The candidate sentence starters among the tokens at the first `k` of
/// the places `firsts`: those whose type occurs in the text, with and without
/// a final period, at least as often as behind the end of a sentence.
pub open spec fn starter_candidates_upto(
    tokens: Seq<TokenView>,
    firsts: Seq<usize>,
    k: int,
    starters: Multiset<Seq<char>>,
    counts: Multiset<Seq<char>>,
    breaks: nat,
) -> Seq<StarterCandidateView>
    decreases k,
{
    if k <= 0 {
        Seq::empty()
    } else {
        let before = starter_candidates_upto(tokens, firsts, k - 1, starters, counts, breaks);
        let t = tokens[firsts[k - 1] as int];
        if counts.count(t.typ_with_period()) + counts.count(t.typ_without_period())
            >= starters.count(t.typ()) {
            before.push(
                StarterCandidateView {
                    typ: t.typ(),
                    evidence: starter_evidence(t, starters, counts, breaks),
                },
            )
        } else {
            before
        }
    }
}

/// The candidate sentence starters of a text, in the order in which their
/// types are first seen behind the end of a sentence.
pub open spec fn starter_candidates(
    tokens: Seq<TokenView>,
    counts: Multiset<Seq<char>>,
    breaks: nat,
) -> Seq<StarterCandidateView> {
    let at = starter_positions_upto(tokens, tokens.len() as int);
    let firsts = first_types_upto(tokens, at, at.len() as int);
    starter_candidates_upto(
        tokens,
        firsts,
        firsts.len() as int,
        types_at_upto(tokens, at, at.len() as int),
        counts,
        breaks,
    )
}

/// The data after the verdicts on the first `n` candidates: a candidate
/// whose score spoke for it is a sentence starter.
pub open spec fn starters_kept(
    d: TrainingDataView,
    candidates: Seq<StarterCandidateView>,
    verdicts: Seq<bool>,
    n: int,
) -> TrainingDataView
    decreases n,
{
    if n <= 0 {
        d
    } else {
        let before = starters_kept(d, candidates, verdicts, n - 1);
        if verdicts[n - 1] {
            before.with_sentence_starter(candidates[n - 1].typ)
        } else {
            before
        }
    }
}

/// The counts from which the score of a candidate collocation is computed.
#[derive(Clone, Copy, Debug, PartialEq, Eq, Structural)]
pub struct CollocationEvidence {
    /// How often the pair was seen.
    pub count: usize,
    /// How often the left type occurs with a final period.
    pub left_with_period: usize,
    /// How often the left type occurs without a final period.
    pub left_without_period: usize,
    /// How often the right type occurs with a final period.
    pub right_with_period: usize,
    /// How often the right type occurs without a final period.
    pub right_without_period: usize,
    /// How many tokens the text has.
    pub total: usize,
}

/// A pair of types that is put before the score as a collocation.
pub struct CollocationCandidate {
    /// The type of the left token without its period.
    pub left: String,
    /// The type of the right token without its break or period.
    pub right: String,
    /// The counts for the score.
    pub evidence: CollocationEvidence,
}

/// What a candidate collocation holds.
pub struct CollocationCandidateView {
    pub left: Seq<char>,
    pub right: Seq<char>,
    pub evidence: CollocationEvidence,
}

impl View for CollocationCandidate {
    type V = CollocationCandidateView;

    open spec fn view(&self) -> CollocationCandidateView {
        CollocationCandidateView { left: self.left@, right: self.right@, evidence: self.evidence }
    }
}

/// The counts for the score of the pair of `l` and `r` as a collocation.
pub open spec fn collocation_evidence(
    l: TokenView,
    r: TokenView,
    pairs: Multiset<(Seq<char>, Seq<char>)>,
    counts: Multiset<Seq<char>>,
) -> CollocationEvidence {
    CollocationEvidence {
        count: pairs.count((l.typ_without_period(), r.typ_without_break_or_period())) as usize,
        left_with_period: counts.count(l.typ_with_period()) as usize,
        left_without_period: counts.count(l.typ_without_period()) as usize,
        right_with_period: counts.count(r.typ_with_period()) as usize,
        right_without_period: counts.count(r.typ_without_period()) as usize,
        total: counts.len() as usize,
    }
}

/// Whether the counts allow the pair of `l` and `r` as a collocation: the
/// right type is no sentence starter, both types occur more than once, and
/// the pair occurs more often than the bound, and no more often than either
/// type.
pub open spec fn collocation_allowed<P: TrainerParameters>(
    l: TokenView,
    r: TokenView,
    pairs: Multiset<(Seq<char>, Seq<char>)>,
    counts: Multiset<Seq<char>>,
    d: TrainingDataView,
) -> bool {
    let count = pairs.count((l.typ_without_period(), r.typ_without_break_or_period()));
    let lc = counts.count(l.typ_without_period()) + counts.count(l.typ_with_period());
    let rc = counts.count(r.typ_without_period()) + counts.count(r.typ_with_period());
    &&& !d.contains_sentence_starter(r.typ_without_break_or_period())
    &&& lc > 1
    &&& rc > 1
    &&& P::spec_collocation_frequency_lower_bound() < count
    &&& count <= lc
    &&& count <= rc
}

/// The candidate collocations among the pairs at the first `k` of the
/// places `firsts`.
pub open spec fn collocation_candidates_upto<P: TrainerParameters>(
    tokens: Seq<TokenView>,
    firsts: Seq<usize>,
    k: int,
    pairs: Multiset<(Seq<char>, Seq<char>)>,
    counts: Multiset<Seq<char>>,
    d: TrainingDataView,
) -> Seq<CollocationCandidateView>
    decreases k,
{
    if k <= 0 {
        Seq::empty()
    } else {
        let before = collocation_candidates_upto::<P>(tokens, firsts, k - 1, pairs, counts, d);
        let l = tokens[firsts[k - 1] as int];
        let r = tokens[firsts[k - 1] as int + 1];
        if collocation_allowed::<P>(l, r, pairs, counts, d) {
            before.push(
                CollocationCandidateView {
                    left: l.typ_without_period(),
                    right: r.typ_without_break_or_period(),
                    evidence: collocation_evidence(l, r, pairs, counts),
                },
            )
        } else {
            before
        }
    }
}

/// The candidate collocations of a text, in the order in which their pairs
/// are first seen.
pub open spec fn collocation_candidates<P: TrainerParameters>(
    tokens: Seq<TokenView>,
    counts: Multiset<Seq<char>>,
    d: TrainingDataView,
) -> Seq<CollocationCandidateView> {
    let at = collocation_positions_upto::<P>(tokens, tokens.len() - 1);
    let firsts = first_pairs_upto(tokens, at, at.len() as int);
    collocation_candidates_upto::<P>(
        tokens,
        firsts,
        firsts.len() as int,
        pairs_at_upto(tokens, at, at.len() as int),
        counts,
        d,
    )
}

/// The data after the verdicts on the first `n` candidates: a candidate
/// whose score spoke for it is a collocation.
pub open spec fn collocations_kept(
    d: TrainingDataView,
    candidates: Seq<CollocationCandidateView>,
    verdicts: Seq<bool>,
    n: int,
) -> TrainingDataView
    decreases n,
{
    if n <= 0 {
        d
    } else {
        let before = collocations_kept(d, candidates, verdicts, n - 1);
        if verdicts[n - 1] {
            before.with_collocation(candidates[n - 1].left, candidates[n - 1].right)
        } else {
            before
        }
    }
}

/// The sum of two counts.
fn sum(a: usize, b: usize) -> (r: u128)
    ensures
        r == a + b,
{
    a as u128 + b as u128
}

/// Every place of a possible sentence starter lies within the first `n`
/// tokens, behind the first.
pub proof fn lemma_starter_positions(tokens: Seq<TokenView>, n: int)
    requires
        n <= usize::MAX,
    ensures
        forall|j: int|
            0 <= j < starter_positions_upto(tokens, n).len() ==> 1 <= #[trigger] starter_positions_upto(
                tokens,
                n,
            )[j] < n,
        starter_positions_upto(tokens, n).len() <= if n > 0 {
            n - 1
        } else {
            0
        },
    decreases n,
{
    if n > 1 {
        lemma_starter_positions(tokens, n - 1);
    }
}

/// Every place of a possible collocation lies within the first `n` pairs.
pub proof fn lemma_collocation_positions<P: TrainerParameters>(tokens: Seq<TokenView>, n: int)
    requires
        n <= usize::MAX,
    ensures
        forall|j: int|
            0 <= j < collocation_positions_upto::<P>(tokens, n).len() ==> 0
                <= #[trigger] collocation_positions_upto::<P>(tokens, n)[j] < n,
        collocation_positions_upto::<P>(tokens, n).len() <= if n > 0 {
            n
        } else {
            0
        },
    decreases n,
{
    if n > 0 {
        lemma_collocation_positions::<P>(tokens, n - 1);
    }
}

impl<P: TrainerParameters + DefinesNonPrefixCharacters + DefinesNonWordCharacters> Trainer<P> {
    /// Makes the first pass over every token.
    pub fn annotate_tokens(&self, tokens: &mut Vec<Token>, data: &TrainingData)
        ensures
            final(tokens).len() == old(tokens).len(),
            forall|i: int|
                0 <= i < old(tokens).len() ==> (#[trigger] final(tokens)[i])@ == first_pass::<P>(
                    old(tokens)[i]@,
                    data@,
                ),
    {
        let mut i: usize = 0;
        while i < tokens.len()
            invariant
                i <= tokens.len(),
                tokens.len() == old(tokens).len(),
                forall|j: int|
                    0 <= j < i ==> (#[trigger] tokens[j])@ == first_pass::<P>(
                        old(tokens)[j]@,
                        data@,
                    ),
                forall|j: int| i <= j < tokens.len() ==> #[trigger] tokens[j] == old(tokens)[j],
            decreases tokens.len() - i,
        {
            annotate_token_at::<P>(tokens, i, data);
            i += 1;
        }
    }

    /// Adds the orthographic context of every token to `data`: the bit for
    /// its case and its position in the sentence, under its type without
    /// break or period.
    pub fn update_orthographic_context(&self, tokens: &Vec<Token>, data: &mut TrainingData)
        requires
            old(data).wf(),
        ensures
            final(data).wf(),
            final(data)@ == ortho_pass_upto(views(tokens@), tokens.len() as int, old(data)@).1,
    {
        let ghost tv = views(tokens@);
        let mut ctxt = OrthographyPosition::Internal;
        let mut i: usize = 0;
        while i < tokens.len()
            invariant
                i <= tokens.len(),
                data.wf(),
                tv == views(tokens@),
                (ctxt, data@) == ortho_pass_upto(tv, i as int, old(data)@),
            decreases tokens.len() - i,
        {
            let t = &tokens[i];
            assert(tv[i as int] == t@);
            if t.is_paragraph_start() && ctxt != OrthographyPosition::Unknown {
                ctxt = OrthographyPosition::Initial;
            }
            if t.is_newline_start() && ctxt == OrthographyPosition::Internal {
                ctxt = OrthographyPosition::Unknown;
            }
            let flag = orthographic_flag(ctxt, t.first_case());
            if flag != 0 {
                data.insert_orthographic_context(t.typ_without_break_or_period(), flag);
            }
            if t.is_sentence_break() {
                if !(t.is_numeric() || t.is_initial()) {
                    ctxt = OrthographyPosition::Initial;
                } else {
                    ctxt = OrthographyPosition::Unknown;
                }
            } else if t.is_ellipsis() || t.is_abbrev() {
                ctxt = OrthographyPosition::Unknown;
            } else {
                ctxt = OrthographyPosition::Internal;
            }
            i += 1;
        }
    }

    /// Counts the tokens that end a sentence.
    pub fn count_sentence_breaks(&self, tokens: &Vec<Token>) -> (n: usize)
        ensures
            n == breaks_upto(views(tokens@), tokens.len() as int),
    {
        let mut n: usize = 0;
        let mut i: usize = 0;
        while i < tokens.len()
            invariant
                i <= tokens.len(),
                n <= i,
                n == breaks_upto(views(tokens@), i as int),
            decreases tokens.len() - i,
        {
            assert(views(tokens@)[i as int] == tokens[i as int]@);
            if tokens[i].is_sentence_break() {
                n += 1;
            }
            i += 1;
        }
        n
    }

    /// Looks at every pair of neighbours whose left token has a final
    /// period, and adds the left token to the abbreviations where it is a
    /// rare abbreviation.
    pub fn learn_rare_abbrevs(
        &self,
        tokens: &Vec<Token>,
        type_fdist: &FrequencyDistribution,
        data: &mut TrainingData,
    )
        requires
            old(data).wf(),
            type_fdist.wf(),
        ensures
            final(data).wf(),
            final(data)@ == rare_abbrevs_upto::<P>(
                views(tokens@),
                tokens.len() - 1,
                type_fdist@,
                old(data)@,
            ),
    {
        let ghost tv = views(tokens@);
        let mut i: usize = 0;
        while i + 1 < tokens.len()
            invariant
                data.wf(),
                type_fdist.wf(),
                tv == views(tokens@),
                i < tokens.len() || i == 0,
                data@ == rare_abbrevs_upto::<P>(tv, i as int, type_fdist@, old(data)@),
            decreases tokens.len() - i,
        {
            let lt = &tokens[i];
            let rt = &tokens[i + 1];
            assert(tv[i as int] == lt@);
            assert(tv[i + 1] == rt@);
            if lt.has_final_period() && is_rare_abbrev_type::<P>(data, type_fdist, lt, rt) {
                data.insert_abbrev(lt.typ_without_period());
            }
            i += 1;
        }
    }

    /// The places of the tokens that may start sentences.
    pub fn sentence_starter_positions(&self, tokens: &Vec<Token>) -> (r: Vec<usize>)
        ensures
            r@ == starter_positions_upto(views(tokens@), tokens.len() as int),
            forall|j: int| 0 <= j < r.len() ==> 1 <= #[trigger] r[j] < tokens.len(),
            r.len() <= tokens.len(),
    {
        let ghost tv = views(tokens@);
        let mut r: Vec<usize> = Vec::new();
        let mut i: usize = 1;
        proof {
            lemma_starter_positions(tv, tokens.len() as int);
        }
        while i < tokens.len()
            invariant
                1 <= i,
                i <= tokens.len() || (tokens.len() == 0 && i == 1),
                tv == views(tokens@),
                r@ == starter_positions_upto(tv, i as int),
            decreases tokens.len() - i,
        {
            assert(tv[i as int] == tokens[i as int]@);
            assert(tv[i - 1] == tokens[i - 1]@);
            if tokens[i - 1].has_final_period() && is_potential_sentence_starter(
                &tokens[i],
                &tokens[i - 1],
            ) {
                r.push(i);
            }
            i += 1;
        }
        assert(starter_positions_upto(tv, 0) == starter_positions_upto(tv, 1));
        r
    }

    /// The places of the left tokens of the pairs that may be collocations.
    pub fn collocation_positions(&self, tokens: &Vec<Token>) -> (r: Vec<usize>)
        ensures
            r@ == collocation_positions_upto::<P>(views(tokens@), tokens.len() - 1),
            forall|j: int| 0 <= j < r.len() ==> #[trigger] r[j] + 1 < tokens.len(),
            r.len() <= tokens.len(),
    {
        let ghost tv = views(tokens@);
        let mut r: Vec<usize> = Vec::new();
        let mut i: usize = 0;
        proof {
            lemma_collocation_positions::<P>(tv, tokens.len() - 1);
        }
        while i + 1 < tokens.len()
            invariant
                i < tokens.len() || i == 0,
                tv == views(tokens@),
                r@ == collocation_positions_upto::<P>(tv, i as int),
            decreases tokens.len() - i,
        {
            assert(tv[i as int] == tokens[i as int]@);
            assert(tv[i + 1] == tokens[i + 1]@);
            if tokens[i].has_final_period() && is_potential_collocation::<P>(
                &tokens[i],
                &tokens[i + 1],
            ) {
                r.push(i);
            }
            i += 1;
        }
        r
    }

    /// The types that are put before the score as sentence starters, in
    /// the order in which each is first seen behind the end of a sentence,
    /// each with the counts for its score.
    pub fn sentence_starter_candidates(
        &self,
        tokens: &Vec<Token>,
        type_fdist: &FrequencyDistribution,
        sentence_break_count: usize,
    ) -> (r: Vec<StarterCandidate>)
        requires
            type_fdist.wf(),
        ensures
            r@.map_values(|c: StarterCandidate| c@) == starter_candidates(
                views(tokens@),
                type_fdist@,
                sentence_break_count as nat,
            ),
    {
        broadcast use group_multiset_properties;

        let ghost tv = views(tokens@);
        let at = self.sentence_starter_positions(tokens);
        let mut starters = FrequencyDistribution::new();
        let mut firsts: Vec<usize> = Vec::new();
        let mut k: usize = 0;
        while k < at.len()
            invariant
                k <= at.len(),
                at.len() <= tokens.len(),
                tv == views(tokens@),
                forall|j: int| 0 <= j < at.len() ==> 1 <= #[trigger] at[j] < tokens.len(),
                starters.wf(),
                starters@ == types_at_upto(tv, at@, k as int),
                starters@.len() == k,
                firsts@ == first_types_upto(tv, at@, k as int),
                forall|j: int| 0 <= j < firsts.len() ==> #[trigger] firsts[j] < tokens.len(),
            decreases at.len() - k,
        {
            let t = &tokens[at[k]];
            assert(tv[at[k as int] as int] == t@);
            let fresh = starters.insert(t.typ());
            if fresh {
                firsts.push(at[k]);
            }
            k += 1;
        }
        let mut r: Vec<StarterCandidate> = Vec::new();
        let ghost ssm = starters@;
        let ghost counts = type_fdist@;
        let ghost breaks = sentence_break_count as nat;
        let mut j: usize = 0;
        while j < firsts.len()
            invariant
                j <= firsts.len(),
                tv == views(tokens@),
                starters.wf(),
                type_fdist.wf(),
                ssm == starters@,
                counts == type_fdist@,
                breaks == sentence_break_count as nat,
                forall|i: int| 0 <= i < firsts.len() ==> #[trigger] firsts[i] < tokens.len(),
                r@.map_values(|c: StarterCandidate| c@) == starter_candidates_upto(
                    tv,
                    firsts@,
                    j as int,
                    ssm,
                    counts,
                    breaks,
                ),
            decreases firsts.len() - j,
        {
            let t = &tokens[firsts[j]];
            assert(tv[firsts[j as int] as int] == t@);
            let starter_count = starters.get(t.typ());
            let with_period = type_fdist.get(t.typ_with_period());
            let without_period = type_fdist.get(t.typ_without_period());
            if sum(with_period, without_period) >= starter_count as u128 {
                let ghost before = r@.map_values(|c: StarterCandidate| c@);
                let c = StarterCandidate {
                    typ: t.typ().to_owned(),
                    evidence: StarterEvidence {
                        starter_count,
                        count_with_period: with_period,
                        count_without_period: without_period,
                        sentence_break_count,
                        total: type_fdist.sum_counts(),
                    },
                };
                r.push(c);
                assert(r@.map_values(|c: StarterCandidate| c@) =~= before.push(c@));
            }
            j += 1;
        }
        r
    }

    /// Writes the verdicts on the candidates into `data`. A verdict is
    /// whether the score of the candidate speaks for it: then its type
    /// becomes a sentence starter.
    pub fn keep_sentence_starters(
        &self,
        data: &mut TrainingData,
        candidates: &Vec<StarterCandidate>,
        verdicts: &Vec<bool>,
    )
        requires
            old(data).wf(),
            candidates.len() == verdicts.len(),
        ensures
            final(data).wf(),
            final(data)@ == starters_kept(
                old(data)@,
                candidates@.map_values(|c: StarterCandidate| c@),
                verdicts@,
                candidates.len() as int,
            ),
    {
        let ghost cv = candidates@.map_values(|c: StarterCandidate| c@);
        let mut i: usize = 0;
        while i < candidates.len()
            invariant
                i <= candidates.len(),
                candidates.len() == verdicts.len(),
                data.wf(),
                cv == candidates@.map_values(|c: StarterCandidate| c@),
                data@ == starters_kept(old(data)@, cv, verdicts@, i as int),
            decreases candidates.len() - i,
        {
            let c = &candidates[i];
            assert(cv[i as int] == c@);
            if verdicts[i] {
                data.insert_sentence_starter(c.typ.as_str());
            }
            i += 1;
        }
    }

    /// The pairs that are put before the score as collocations, in the
    /// order in which each is first seen, each with the counts for its score.
    pub fn collocation_candidates(
        &self,
        tokens: &Vec<Token>,
        type_fdist: &FrequencyDistribution,
        data: &TrainingData,
    ) -> (r: Vec<CollocationCandidate>)
        requires
            type_fdist.wf(),
        ensures
            r@.map_values(|c: CollocationCandidate| c@) == collocation_candidates::<P>(
                views(tokens@),
                type_fdist@,
                data@,
            ),
    {
        broadcast use group_multiset_properties;

        let ghost tv = views(tokens@);
        let at = self.collocation_positions(tokens);
        let mut pairs = PairDistribution::new();
        let mut firsts: Vec<usize> = Vec::new();
        let mut k: usize = 0;
        while k < at.len()
            invariant
                k <= at.len(),
                at.len() <= tokens.len(),
                tv == views(tokens@),
                forall|j: int| 0 <= j < at.len() ==> #[trigger] at[j] + 1 < tokens.len(),
                pairs.wf(),
                pairs@ == pairs_at_upto(tv, at@, k as int),
                pairs@.len() == k,
                firsts@ == first_pairs_upto(tv, at@, k as int),
                forall|j: int| 0 <= j < firsts.len() ==> #[trigger] firsts[j] + 1 < tokens.len(),
            decreases at.len() - k,
        {
            let l = &tokens[at[k]];
            let r = &tokens[at[k] + 1];
            assert(tv[at[k as int] as int] == l@);
            assert(tv[at[k as int] + 1] == r@);
            let fresh = pairs.insert(l.typ_without_period(), r.typ_without_break_or_period());
            if fresh {
                firsts.push(at[k]);
            }
            k += 1;
        }
        let mut out: Vec<CollocationCandidate> = Vec::new();
        let ghost pm = pairs@;
        let ghost counts = type_fdist@;
        let mut j: usize = 0;
        while j < firsts.len()
            invariant
                j <= firsts.len(),
                tv == views(tokens@),
                pairs.wf(),
                type_fdist.wf(),
                pm == pairs@,
                counts == type_fdist@,
                forall|i: int| 0 <= i < firsts.len() ==> #[trigger] firsts[i] + 1 < tokens.len(),
                out@.map_values(|c: CollocationCandidate| c@) == collocation_candidates_upto::<P>(
                    tv,
                    firsts@,
                    j as int,
                    pm,
                    counts,
                    data@,
                ),
            decreases firsts.len() - j,
        {
            let l = &tokens[firsts[j]];
            let r = &tokens[firsts[j] + 1];
            assert(tv[firsts[j as int] as int] == l@);
            assert(tv[firsts[j as int] + 1] == r@);
            let count = pairs.get(l.typ_without_period(), r.typ_without_break_or_period());
            let left_with = type_fdist.get(l.typ_with_period());
            let left_without = type_fdist.get(l.typ_without_period());
            let right_with = type_fdist.get(r.typ_with_period());
            let right_without = type_fdist.get(r.typ_without_period());
            let lc = sum(left_without, left_with);
            let rc = sum(right_without, right_with);
            if !data.contains_sentence_starter(r.typ_without_break_or_period()) && lc > 1 && rc > 1
                && P::collocation_frequency_lower_bound() < count && count as u128 <= lc
                && count as u128 <= rc {
                let ghost before = out@.map_values(|c: CollocationCandidate| c@);
                let c = CollocationCandidate {
                    left: l.typ_without_period().to_owned(),
                    right: r.typ_without_break_or_period().to_owned(),
                    evidence: CollocationEvidence {
                        count,
                        left_with_period: left_with,
                        left_without_period: left_without,
                        right_with_period: right_with,
                        right_without_period: right_without,
                        total: type_fdist.sum_counts(),
                    },
                };
                out.push(c);
                assert(out@.map_values(|c: CollocationCandidate| c@) =~= before.push(c@));
            }
            j += 1;
        }
        out
    }

    /// Writes the verdicts on the candidates into `data`. A verdict is
    /// whether the score of the candidate speaks for it: then its pair of
    /// types becomes a collocation.
    pub fn keep_collocations(
        &self,
        data: &mut TrainingData,
        candidates: &Vec<CollocationCandidate>,
        verdicts: &Vec<bool>,
    )
        requires
            old(data).wf(),
            candidates.len() == verdicts.len(),
        ensures
            final(data).wf(),
            final(data)@ == collocations_kept(
                old(data)@,
                candidates@.map_values(|c: CollocationCandidate| c@),
                verdicts@,
                candidates.len() as int,
            ),
    {
        let ghost cv = candidates@.map_values(|c: CollocationCandidate| c@);
        let mut i: usize = 0;
        while i < candidates.len()
            invariant
                i <= candidates.len(),
                candidates.len() == verdicts.len(),
                data.wf(),
                cv == candidates@.map_values(|c: CollocationCandidate| c@),
                data@ == collocations_kept(old(data)@, cv, verdicts@, i as int),
            decreases candidates.len() - i,
        {
            let c = &candidates[i];
            assert(cv[i as int] == c@);
            if verdicts[i] {
                data.insert_collocation(c.left.as_str(), c.right.as_str());
            }
            i += 1;
        }
    }
}

/// Makes the first pass over the token at place `i`; the others stay as
/// they are.
fn annotate_token_at<P: TrainerParameters>(tokens: &mut Vec<Token>, i: usize, data: &TrainingData)
    requires
        i < old(tokens).len(),
    ensures
        final(tokens).len() == old(tokens).len(),
        final(tokens)[i as int]@ == first_pass::<P>(old(tokens)[i as int]@, data@),
        forall|j: int| 0 <= j < old(tokens).len() && j != i ==> final(tokens)[j] == old(tokens)[j],
{
    let t = &mut tokens[i];
    annotate_first_pass::<P>(t, data);
}

/// The judge of the candidates. It computes a score from the counts of a
/// candidate and compares it with its bounds. Nothing is asked of what it
/// says: the trainer asks it once for each candidate, and writes down the
/// verdict that comes back.
pub trait Judge {
    /// Whether the score of a candidate abbreviation reaches the lower bound
    /// for abbreviations.
    fn is_abbrev(&self, evidence: &AbbrevEvidence) -> bool;

    /// Whether the score of a candidate sentence starter speaks for it.
    fn is_sentence_starter(&self, evidence: &StarterEvidence) -> bool;

    /// Whether the score of a candidate collocation speaks for it.
    fn is_collocation(&self, evidence: &CollocationEvidence) -> bool;
}

/// The tokens of a text after the first pass by the data `d`.
pub open spec fn annotated<P: TrainerParameters>(
    tokens: Seq<TokenView>,
    d: TrainingDataView,
) -> Seq<TokenView> {
    tokens.map_values(|t: TokenView| first_pass::<P>(t, d))
}

/// The candidate abbreviations of the text `doc` for the data `d`.
pub open spec fn abbrev_candidates_of<
    P: TrainerParameters + DefinesNonPrefixCharacters + DefinesNonWordCharacters,
>(doc: Seq<char>, d: TrainingDataView) -> Seq<AbbrevCandidateView> {
    let tokens = tokens_of::<P>(doc);
    let n = tokens.len() as int;
    abbrev_candidates_upto(tokens, n, types_upto(tokens, n), periods_upto(tokens, n), d)
}

/// The data after the text `doc` was counted, the verdicts `va` on its
/// candidate abbreviations were written down, its tokens went through the
/// first pass, their orthographic context was added, and its rare
/// abbreviations were found.
pub open spec fn after_sweep<
    P: TrainerParameters + DefinesNonPrefixCharacters + DefinesNonWordCharacters,
>(doc: Seq<char>, d: TrainingDataView, va: Seq<bool>) -> TrainingDataView {
    let tokens = tokens_of::<P>(doc);
    let n = tokens.len() as int;
    let candidates = abbrev_candidates_of::<P>(doc, d);
    let d1 = reclassified(d, candidates, va, candidates.len() as int);
    let marked = annotated::<P>(tokens, d1);
    let d2 = ortho_pass_upto(marked, n, d1).1;
    rare_abbrevs_upto::<P>(marked, n - 1, types_upto(tokens, n), d2)
}

/// The candidate sentence starters of the text `doc`, after the verdicts `va`
/// on its candidate abbreviations.
pub open spec fn starter_candidates_of<
    P: TrainerParameters + DefinesNonPrefixCharacters + DefinesNonWordCharacters,
>(doc: Seq<char>, d: TrainingDataView, va: Seq<bool>) -> Seq<StarterCandidateView> {
    let tokens = tokens_of::<P>(doc);
    let n = tokens.len() as int;
    let candidates = abbrev_candidates_of::<P>(doc, d);
    let d1 = reclassified(d, candidates, va, candidates.len() as int);
    let marked = annotated::<P>(tokens, d1);
    starter_candidates(marked, types_upto(tokens, n), breaks_upto(marked, n))
}

/// The data after the verdicts `vs` on the candidate sentence starters of
/// the text `doc` were written down as well.
pub open spec fn after_starters<
    P: TrainerParameters + DefinesNonPrefixCharacters + DefinesNonWordCharacters,
>(doc: Seq<char>, d: TrainingDataView, va: Seq<bool>, vs: Seq<bool>) -> TrainingDataView {
    let candidates = starter_candidates_of::<P>(doc, d, va);
    starters_kept(after_sweep::<P>(doc, d, va), candidates, vs, candidates.len() as int)
}

/// The candidate collocations of the text `doc`, after the verdicts `va` on
/// its candidate abbreviations and `vs` on its candidate sentence starters.
pub open spec fn collocation_candidates_of<
    P: TrainerParameters + DefinesNonPrefixCharacters + DefinesNonWordCharacters,
>(doc: Seq<char>, d: TrainingDataView, va: Seq<bool>, vs: Seq<bool>) -> Seq<
    CollocationCandidateView,
> {
    let tokens = tokens_of::<P>(doc);
    let n = tokens.len() as int;
    let candidates = abbrev_candidates_of::<P>(doc, d);
    let d1 = reclassified(d, candidates, va, candidates.len() as int);
    let marked = annotated::<P>(tokens, d1);
    collocation_candidates::<P>(marked, types_upto(tokens, n), after_starters::<P>(doc, d, va, vs))
}

/// The data after training on the text `doc` with the verdicts `va` on its
/// candidate abbreviations, `vs` on its candidate sentence starters and `vc`
/// on its candidate collocations.
pub open spec fn trained<
    P: TrainerParameters + DefinesNonPrefixCharacters + DefinesNonWordCharacters,
>(
    doc: Seq<char>,
    d: TrainingDataView,
    va: Seq<bool>,
    vs: Seq<bool>,
    vc: Seq<bool>,
) -> TrainingDataView {
    let candidates = collocation_candidates_of::<P>(doc, d, va, vs);
    collocations_kept(after_starters::<P>(doc, d, va, vs), candidates, vc, candidates.len() as int)
}

/// Whether `verdicts` are verdicts of the judge on the candidate
/// abbreviations: one for each candidate, each an answer of `is_abbrev` to
/// the counts of its candidate.
pub open spec fn abbrevs_judged<J: Judge>(
    judge: &J,
    candidates: Seq<AbbrevCandidateView>,
    verdicts: Seq<bool>,
) -> bool {
    &&& verdicts.len() == candidates.len()
    &&& forall|i: int|
        0 <= i < candidates.len() ==> call_ensures(
            J::is_abbrev,
            (judge, &candidates[i].evidence),
            #[trigger] verdicts[i],
        )
}

/// Whether `verdicts` are verdicts of the judge on the candidate sentence
/// starters: one for each candidate, each an answer of `is_sentence_starter`
/// to the counts of its candidate.
pub open spec fn starters_judged<J: Judge>(
    judge: &J,
    candidates: Seq<StarterCandidateView>,
    verdicts: Seq<bool>,
) -> bool {
    &&& verdicts.len() == candidates.len()
    &&& forall|i: int|
        0 <= i < candidates.len() ==> call_ensures(
            J::is_sentence_starter,
            (judge, &candidates[i].evidence),
            #[trigger] verdicts[i],
        )
}

/// Whether `verdicts` are verdicts of the judge on the candidate
/// collocations: one for each candidate, each an answer of `is_collocation`
/// to the counts of its candidate.
pub open spec fn collocations_judged<J: Judge>(
    judge: &J,
    candidates: Seq<CollocationCandidateView>,
    verdicts: Seq<bool>,
) -> bool {
    &&& verdicts.len() == candidates.len()
    &&& forall|i: int|
        0 <= i < candidates.len() ==> call_ensures(
            J::is_collocation,
            (judge, &candidates[i].evidence),
            #[trigger] verdicts[i],
        )
}

/// Whether the data `after` comes from training on the text `doc` with the
/// data `before` and the judge `judge`: the judge has given a verdict on the
/// counts of each candidate, and training with those verdicts leads from the
/// one to the other.
pub open spec fn training_step<
    P: TrainerParameters + DefinesNonPrefixCharacters + DefinesNonWordCharacters,
    J: Judge,
>(judge: &J, doc: Seq<char>, before: TrainingDataView, after: TrainingDataView) -> bool {
    exists|va: Seq<bool>, vs: Seq<bool>, vc: Seq<bool>|
        {
            &&& abbrevs_judged(judge, abbrev_candidates_of::<P>(doc, before), va)
            &&& starters_judged(judge, starter_candidates_of::<P>(doc, before, va), vs)
            &&& collocations_judged(
                judge,
                collocation_candidates_of::<P>(doc, before, va, vs),
                vc,
            )
            &&& after == #[trigger] trained::<P>(doc, before, va, vs, vc)
        }
}

impl<P: TrainerParameters + DefinesNonPrefixCharacters + DefinesNonWordCharacters> Trainer<P> {
    /// Trains on the text `doc`: counts its types, puts its candidate
    /// abbreviations before the judge and writes down the verdicts, makes the
    /// first pass over its tokens, adds their orthographic context, finds its
    /// rare abbreviations, and then puts its candidate sentence starters and
    /// its candidate collocations before the judge and writes down those
    /// verdicts.
    pub fn train<J: Judge>(&self, doc: &str, data: &mut TrainingData, judge: &J)
        requires
            old(data).wf(),
        ensures
            final(data).wf(),
            training_step::<P, J>(judge, doc@, old(data)@, final(data)@),
    {
        let mut tokens = self.tokenize(doc);
        let ghost plain = views(tokens@);
        let ghost n = tokens.len() as int;
        let (type_fdist, period_token_count) = self.count_types(&tokens);

        let candidates = self.abbrev_candidates(&tokens, &type_fdist, period_token_count, data);
        let ghost ca = candidates@.map_values(|c: AbbrevCandidate| c@);
        let mut va: Vec<bool> = Vec::new();
        let mut i: usize = 0;
        while i < candidates.len()
            invariant
                i <= candidates.len(),
                va.len() == i,
                ca == candidates@.map_values(|c: AbbrevCandidate| c@),
                forall|k: int|
                    0 <= k < i ==> call_ensures(
                        J::is_abbrev,
                        (judge, &ca[k].evidence),
                        #[trigger] va@[k],
                    ),
            decreases candidates.len() - i,
        {
            assert(ca[i as int].evidence == candidates[i as int].evidence);
            va.push(judge.is_abbrev(&candidates[i].evidence));
            i += 1;
        }
        self.reclassify_abbrevs(data, &candidates, &va);
        let ghost d1 = data@;

        self.annotate_tokens(&mut tokens, data);
        let ghost marked = views(tokens@);
        assert(marked =~= annotated::<P>(plain, d1));
        self.update_orthographic_context(&tokens, data);
        let sentence_break_count = self.count_sentence_breaks(&tokens);
        self.learn_rare_abbrevs(&tokens, &type_fdist, data);

        let starters = self.sentence_starter_candidates(&tokens, &type_fdist, sentence_break_count);
        let ghost cs = starters@.map_values(|c: StarterCandidate| c@);
        let mut vs: Vec<bool> = Vec::new();
        let mut j: usize = 0;
        while j < starters.len()
            invariant
                j <= starters.len(),
                vs.len() == j,
                cs == starters@.map_values(|c: StarterCandidate| c@),
                forall|k: int|
                    0 <= k < j ==> call_ensures(
                        J::is_sentence_starter,
                        (judge, &cs[k].evidence),
                        #[trigger] vs@[k],
                    ),
            decreases starters.len() - j,
        {
            assert(cs[j as int].evidence == starters[j as int].evidence);
            vs.push(judge.is_sentence_starter(&starters[j].evidence));
            j += 1;
        }
        self.keep_sentence_starters(data, &starters, &vs);

        let collocations = self.collocation_candidates(&tokens, &type_fdist, data);
        let ghost cc = collocations@.map_values(|c: CollocationCandidate| c@);
        let mut vc: Vec<bool> = Vec::new();
        let mut k: usize = 0;
        while k < collocations.len()
            invariant
                k <= collocations.len(),
                vc.len() == k,
                cc == collocations@.map_values(|c: CollocationCandidate| c@),
                forall|m: int|
                    0 <= m < k ==> call_ensures(
                        J::is_collocation,
                        (judge, &cc[m].evidence),
                        #[trigger] vc@[m],
                    ),
            decreases collocations.len() - k,
        {
            assert(cc[k as int].evidence == collocations[k as int].evidence);
            vc.push(judge.is_collocation(&collocations[k].evidence));
            k += 1;
        }
        self.keep_collocations(data, &collocations, &vc);
        proof {
            assert(candidates@.map_values(|c: AbbrevCandidate| c@).len() == candidates.len());
            assert(starters@.map_values(|c: StarterCandidate| c@).len() == starters.len());
            assert(collocations@.map_values(|c: CollocationCandidate| c@).len()
                == collocations.len());
            assert(ca == abbrev_candidates_of::<P>(doc@, old(data)@));
            assert(cs == starter_candidates_of::<P>(doc@, old(data)@, va@));
            assert(cc == collocation_candidates_of::<P>(doc@, old(data)@, va@, vs@));
            assert(abbrevs_judged(judge, ca, va@));
            assert(starters_judged(judge, cs, vs@));
            assert(collocations_judged(judge, cc, vc@));
            assert(data@ == trained::<P>(doc@, old(data)@, va@, vs@, vc@));
        }
    }
}

} // verus!
