//! Training data: the four tables that the trainer fills and the sentence
//! tokenizer reads. Every key is kept in lower case, and every lookup is made
//! in lower case.

use vstd::prelude::*;
use vstd::hash_map::StringHashMap;
use vstd::string::*;
use crate::freq::distinct;
use crate::keys::KeySet;
use crate::ortho::OrthographicContext;
use crate::text::{lemma_lower_idempotent, lower, lowercase};

verus! {

/// Whether `k` is in lower case: it is its own lower case form.
pub open spec fn lowered(k: Seq<char>) -> bool {
    lower(k) == k
}

/// What training data holds: the four tables.
#[verifier::ext_equal]
pub struct TrainingDataView {
    /// The types that are abbreviations.
    pub abbrevs: Set<Seq<char>>,
    /// The types that often start a sentence.
    pub sentence_starters: Set<Seq<char>>,
    /// The pairs of types that often stand together, left and right.
    pub collocations: Set<(Seq<char>, Seq<char>)>,
    /// The record of positions and cases of each type that was seen.
    pub orthographic_context: Map<Seq<char>, OrthographicContext>,
}

impl TrainingDataView {
    /// The tables with nothing in them.
    pub open spec fn empty() -> TrainingDataView {
        TrainingDataView {
            abbrevs: Set::empty(),
            sentence_starters: Set::empty(),
            collocations: Set::empty(),
            orthographic_context: Map::empty(),
        }
    }

    /// Whether `tok`, in any case, is an abbreviation.
    pub open spec fn contains_abbrev(self, tok: Seq<char>) -> bool {
        self.abbrevs.contains(lower(tok))
    }

    /// Whether `tok`, in any case, often starts a sentence.
    pub open spec fn contains_sentence_starter(self, tok: Seq<char>) -> bool {
        self.sentence_starters.contains(lower(tok))
    }

    /// Whether `left` and `right`, in any case, often stand together.
    pub open spec fn contains_collocation(self, left: Seq<char>, right: Seq<char>) -> bool {
        self.collocations.contains((lower(left), lower(right)))
    }

    /// The record of positions and cases of `tok`, in any case; nothing where
    /// it was never seen.
    pub open spec fn ortho(self, tok: Seq<char>) -> OrthographicContext {
        if self.orthographic_context.contains_key(lower(tok)) {
            self.orthographic_context[lower(tok)]
        } else {
            0
        }
    }

    /// The tables with the abbreviation `tok` added.
    pub open spec fn with_abbrev(self, tok: Seq<char>) -> TrainingDataView {
        TrainingDataView { abbrevs: self.abbrevs.insert(lower(tok)), ..self }
    }

    /// The tables with the abbreviation `tok` taken out.
    pub open spec fn without_abbrev(self, tok: Seq<char>) -> TrainingDataView {
        TrainingDataView { abbrevs: self.abbrevs.remove(lower(tok)), ..self }
    }

    /// The tables with the sentence starter `tok` added.
    pub open spec fn with_sentence_starter(self, tok: Seq<char>) -> TrainingDataView {
        TrainingDataView { sentence_starters: self.sentence_starters.insert(lower(tok)), ..self }
    }

    /// The tables with the collocation of `left` and `right` added.
    pub open spec fn with_collocation(self, left: Seq<char>, right: Seq<char>) -> TrainingDataView {
        TrainingDataView {
            collocations: self.collocations.insert((lower(left), lower(right))),
            ..self
        }
    }

    /// The tables with the bits of `ctxt` added to the record of `tok`.
    pub open spec fn with_ortho(self, tok: Seq<char>, ctxt: OrthographicContext) -> TrainingDataView {
        TrainingDataView {
            orthographic_context: self.orthographic_context.insert(
                lower(tok),
                self.ortho(tok) | ctxt,
            ),
            ..self
        }
    }

    /// Whether every key of the four tables is in lower case.
    pub open spec fn keys_lowered(self) -> bool {
        &&& forall|k: Seq<char>| self.abbrevs.contains(k) ==> lowered(k)
        &&& forall|k: Seq<char>| self.sentence_starters.contains(k) ==> lowered(k)
        &&& forall|l: Seq<char>, r: Seq<char>| #[trigger]
            self.collocations.contains((l, r)) ==> lowered(l) && lowered(r)
        &&& forall|k: Seq<char>| self.orthographic_context.contains_key(k) ==> lowered(k)
    }
}

/// The data that training gathers: abbreviations, sentence starters,
/// collocations, and the orthographic context of each type.
pub struct TrainingData {
    abbrevs: KeySet,
    sentence_starters: KeySet,
    /// For each left type of a collocation, the place of its right types in
    /// `rights`.
    lefts: StringHashMap<usize>,
    /// The left type of each place.
    left_keys: Vec<String>,
    rights: Vec<KeySet>,
    orthographic_context: StringHashMap<OrthographicContext>,
    /// The types that have a record of their orthographic context.
    context_keys: KeySet,
}

impl View for TrainingData {
    type V = TrainingDataView;

    closed spec fn view(&self) -> TrainingDataView {
        TrainingDataView {
            abbrevs: self.abbrevs@,
            sentence_starters: self.sentence_starters@,
            collocations: Set::new(
                |p: (Seq<char>, Seq<char>)|
                    self.lefts@.contains_key(p.0) && 0 <= self.lefts@[p.0] < self.rights@.len()
                        && self.rights@[self.lefts@[p.0] as int]@.contains(p.1),
            ),
            orthographic_context: self.orthographic_context@,
        }
    }
}

impl TrainingData {
    /// Whether the data is in order: each left type has its own place for its
    /// right types, the keys of each table can be gone through, and every
    /// key is in lower case.
    pub closed spec fn wf(&self) -> bool {
        &&& self.abbrevs.wf()
        &&& self.sentence_starters.wf()
        &&& self.context_keys.wf()
        &&& forall|k: Seq<char>|
            self.context_keys@.contains(k) <==> self.orthographic_context@.contains_key(k)
        &&& self.left_keys@.len() == self.rights@.len()
        &&& forall|l: Seq<char>| #[trigger]
            self.lefts@.contains_key(l) ==> self.lefts@[l] < self.rights@.len()
                && self.left_keys@[self.lefts@[l] as int]@ == l
        &&& forall|i: int|
            0 <= i < self.rights@.len() ==> self.lefts@.contains_key(#[trigger] self.left_keys@[i]@)
                && self.lefts@[self.left_keys@[i]@] == i
        &&& forall|i: int|
            0 <= i < self.rights@.len() ==> (#[trigger] self.rights@[i]).wf()
                && self.rights@[i].keys_view().len() > 0
        &&& self@.keys_lowered()
    }

    /// The abbreviations, each once, in the order in which `abbrevs` hands
    /// them out.
    pub closed spec fn abbrev_list(&self) -> Seq<Seq<char>> {
        self.abbrevs.keys_view()
    }

    /// The sentence starters, each once, in the order in which
    /// `sentence_starters` hands them out.
    pub closed spec fn sentence_starter_list(&self) -> Seq<Seq<char>> {
        self.sentence_starters.keys_view()
    }

    /// The collocations whose left type has one of the first `n` places.
    spec fn pairs_upto(&self, n: int) -> Seq<(Seq<char>, Seq<char>)>
        decreases n,
    {
        if n <= 0 {
            Seq::empty()
        } else {
            self.pairs_upto(n - 1) + self.pairs_at(n - 1, self.rights@[n - 1].keys_view().len() as int)
        }
    }

    /// The collocations of the left type at place `i` with the first `m` of
    /// its right types.
    spec fn pairs_at(&self, i: int, m: int) -> Seq<(Seq<char>, Seq<char>)>
        decreases m,
    {
        if m <= 0 {
            Seq::empty()
        } else {
            self.pairs_at(i, m - 1).push((self.left_keys@[i]@, self.rights@[i].keys_view()[m - 1]))
        }
    }

    /// The collocations, each once, left and right, in the order in which
    /// `collocations` hands them out.
    pub closed spec fn collocation_list(&self) -> Seq<(Seq<char>, Seq<char>)> {
        self.pairs_upto(self.rights@.len() as int)
    }

    /// The types with a record of their orthographic context, each once and
    /// with its record, in the order in which `orthographic_contexts` hands
    /// them out.
    pub closed spec fn context_list(&self) -> Seq<(Seq<char>, OrthographicContext)> {
        Seq::new(
            self.context_keys.keys_view().len(),
            |i: int|
                (
                    self.context_keys.keys_view()[i],
                    self.orthographic_context@[self.context_keys.keys_view()[i]],
                ),
        )
    }

    /// The collocations of the left type at place `i` with the first `m` of
    /// its right types are the pairs of that left type with those right
    /// types.
    proof fn lemma_pairs_at(&self, i: int, m: int)
        requires
            0 <= m <= self.rights@[i].keys_view().len(),
        ensures
            self.pairs_at(i, m).len() == m,
            forall|j: int|
                0 <= j < m ==> #[trigger] self.pairs_at(i, m)[j] == (
                    self.left_keys@[i]@,
                    self.rights@[i].keys_view()[j],
                ),
        decreases m,
    {
        if m > 0 {
            self.lemma_pairs_at(i, m - 1);
        }
    }

    /// Every collocation whose left type has one of the first `n` places is
    /// in the list of those places, and nothing else is.
    proof fn lemma_pairs_upto(&self, n: int)
        requires
            self.wf(),
            0 <= n <= self.rights@.len(),
        ensures
            forall|p: (Seq<char>, Seq<char>)|
                self.pairs_upto(n).contains(p) <==> (exists|i: int|
                    0 <= i < n && #[trigger] self.left_keys@[i]@ == p.0 && self.rights@[i]@.contains(
                        p.1,
                    )),
            distinct(self.pairs_upto(n)),
        decreases n,
    {
        if n > 0 {
            self.lemma_pairs_upto(n - 1);
            let set = self.rights@[n - 1];
            let m = set.keys_view().len() as int;
            self.lemma_pairs_at(n - 1, m);
            set.lemma_keys();
            let head = self.pairs_upto(n - 1);
            let tail = self.pairs_at(n - 1, m);
            let all = self.pairs_upto(n);
            assert forall|a: int, b: int| 0 <= a < b < all.len() implies all[a] != all[b] by {
                if b < head.len() {
                    assert(head[a] != head[b]);
                } else if a >= head.len() {
                    let ja = a - head.len();
                    let jb = b - head.len();
                    assert(all[a] == tail[ja]);
                    assert(all[b] == tail[jb]);
                    assert(set.keys_view()[ja] != set.keys_view()[jb]);
                } else {
                    assert(all[a] == head[a]);
                    assert(head.contains(head[a]));
                    let i = choose|i: int|
                        0 <= i < n - 1 && #[trigger] self.left_keys@[i]@ == head[a].0
                            && self.rights@[i]@.contains(head[a].1);
                    assert(self.lefts@[self.left_keys@[i]@] == i);
                    assert(self.lefts@[self.left_keys@[n - 1]@] == n - 1);
                    assert(all[b] == tail[b - head.len()]);
                    assert(all[b].0 == self.left_keys@[n - 1]@);
                }
            }
            assert forall|p: (Seq<char>, Seq<char>)|
                self.pairs_upto(n).contains(p) <==> (exists|i: int|
                    0 <= i < n && #[trigger] self.left_keys@[i]@ == p.0 && self.rights@[i]@.contains(
                        p.1,
                    )) by {
                if self.pairs_upto(n).contains(p) {
                    let k = choose|k: int|
                        0 <= k < self.pairs_upto(n).len() && self.pairs_upto(n)[k] == p;
                    if k < head.len() {
                        assert(head[k] == p);
                        assert(head.contains(p));
                        let i = choose|i: int|
                            0 <= i < n - 1 && #[trigger] self.left_keys@[i]@ == p.0
                                && self.rights@[i]@.contains(p.1);
                        assert(0 <= i < n && self.left_keys@[i]@ == p.0);
                    } else {
                        let j = k - head.len();
                        assert(tail[j] == p);
                        assert(set.keys_view()[j] == p.1);
                        assert(set.keys_view().contains(p.1));
                        assert(self.left_keys@[n - 1]@ == p.0);
                    }
                }
                if exists|i: int|
                    0 <= i < n && #[trigger] self.left_keys@[i]@ == p.0 && self.rights@[i]@.contains(
                        p.1,
                    ) {
                    let i = choose|i: int|
                        0 <= i < n && #[trigger] self.left_keys@[i]@ == p.0
                            && self.rights@[i]@.contains(p.1);
                    if i < n - 1 {
                        assert(head.contains(p));
                        let k = choose|k: int| 0 <= k < head.len() && head[k] == p;
                        assert(self.pairs_upto(n)[k] == p);
                    } else {
                        assert(set.keys_view().contains(p.1));
                        let j = choose|j: int|
                            0 <= j < set.keys_view().len() && set.keys_view()[j] == p.1;
                        assert(tail[j] == p);
                        assert(self.pairs_upto(n)[head.len() + j] == p);
                    }
                }
            }
        }
    }

    /// What the lists hold: each list holds what its table holds, each
    /// entry once, and nothing else.
    pub proof fn lemma_lists(&self)
        requires
            self.wf(),
        ensures
            distinct(self.abbrev_list()),
            forall|k: Seq<char>| self.abbrev_list().contains(k) <==> self@.abbrevs.contains(k),
            distinct(self.sentence_starter_list()),
            forall|k: Seq<char>|
                self.sentence_starter_list().contains(k) <==> self@.sentence_starters.contains(k),
            distinct(self.collocation_list()),
            forall|p: (Seq<char>, Seq<char>)|
                self.collocation_list().contains(p) <==> self@.collocations.contains(p),
            forall|i: int, j: int|
                0 <= i < j < self.context_list().len() ==> self.context_list()[i].0
                    != self.context_list()[j].0,
            forall|p: (Seq<char>, OrthographicContext)|
                self.context_list().contains(p) <==> self@.orthographic_context.contains_pair(
                    p.0,
                    p.1,
                ),
    {
        self.abbrevs.lemma_keys();
        self.sentence_starters.lemma_keys();
        self.context_keys.lemma_keys();
        self.lemma_pairs_upto(self.rights@.len() as int);
        assert forall|p: (Seq<char>, Seq<char>)|
            self.collocation_list().contains(p) <==> self@.collocations.contains(p) by {
            if self.collocation_list().contains(p) {
                let i = choose|i: int|
                    0 <= i < self.rights@.len() && #[trigger] self.left_keys@[i]@ == p.0
                        && self.rights@[i]@.contains(p.1);
                assert(self.lefts@.contains_key(self.left_keys@[i]@));
            }
            if self@.collocations.contains(p) {
                let i = self.lefts@[p.0] as int;
                assert(self.left_keys@[i]@ == p.0);
            }
        }
        let keys = self.context_keys.keys_view();
        assert forall|i: int, j: int| 0 <= i < j < self.context_list().len() implies self.context_list()[i].0
            != self.context_list()[j].0 by {
            assert(keys[i] != keys[j]);
        }
        assert forall|p: (Seq<char>, OrthographicContext)|
            self.context_list().contains(p) <==> self@.orthographic_context.contains_pair(
                p.0,
                p.1,
            ) by {
            if self.context_list().contains(p) {
                let i = choose|i: int|
                    0 <= i < self.context_list().len() && self.context_list()[i] == p;
                assert(keys[i] == p.0);
                assert(keys.contains(p.0));
            }
            if self@.orthographic_context.contains_pair(p.0, p.1) {
                assert(self.context_keys@.contains(p.0));
                let i = choose|i: int| 0 <= i < keys.len() && keys[i] == p.0;
                assert(self.context_list()[i] == p);
            }
        }
    }

    /// New data, with nothing in its tables.
    pub fn new() -> (d: TrainingData)
        ensures
            d.wf(),
            d@ == TrainingDataView::empty(),
    {
        let d = TrainingData {
            abbrevs: KeySet::new(),
            sentence_starters: KeySet::new(),
            lefts: StringHashMap::new(),
            left_keys: Vec::new(),
            rights: Vec::new(),
            orthographic_context: StringHashMap::new(),
            context_keys: KeySet::new(),
        };
        assert(d@.collocations =~= Set::empty());
        d
    }

    /// Whether no abbreviation is known.
    pub fn has_no_abbrevs(&self) -> (b: bool)
        requires
            self.wf(),
        ensures
            b == (forall|k: Seq<char>| !self@.abbrevs.contains(k)),
    {
        let b = self.abbrevs.is_empty();
        proof {
            if b {
                assert forall|k: Seq<char>| !self@.abbrevs.contains(k) by {
                    assert(!self.abbrevs@.contains(k));
                }
            } else {
                let k = choose|k: Seq<char>| self.abbrevs@.contains(k);
                assert(self@.abbrevs.contains(k));
            }
        }
        b
    }

    /// Whether no sentence starter is known.
    pub fn has_no_sentence_starters(&self) -> (b: bool)
        requires
            self.wf(),
        ensures
            b == (forall|k: Seq<char>| !self@.sentence_starters.contains(k)),
    {
        let b = self.sentence_starters.is_empty();
        proof {
            if b {
                assert forall|k: Seq<char>| !self@.sentence_starters.contains(k) by {
                    assert(!self.sentence_starters@.contains(k));
                }
            } else {
                let k = choose|k: Seq<char>| self.sentence_starters@.contains(k);
                assert(self@.sentence_starters.contains(k));
            }
        }
        b
    }

    /// Whether no collocation is known.
    pub fn has_no_collocations(&self) -> (b: bool)
        requires
            self.wf(),
        ensures
            b == (forall|p: (Seq<char>, Seq<char>)| !self@.collocations.contains(p)),
    {
        let b = self.rights.len() == 0;
        proof {
            if !b {
                let l = self.left_keys@[0]@;
                assert(self.lefts@.contains_key(l) && self.lefts@[l] == 0);
                let r = self.rights@[0].keys_view()[0];
                self.rights@[0].lemma_keys();
                assert(self.rights@[0].keys_view().contains(r));
                assert(self@.collocations.contains((l, r)));
            } else {
                assert forall|p: (Seq<char>, Seq<char>)| !self@.collocations.contains(p) by {
                    if self.lefts@.contains_key(p.0) {
                        assert(self.lefts@[p.0] < self.rights@.len());
                    }
                }
            }
        }
        b
    }

    /// Whether no type has a record of its orthographic context.
    pub fn has_no_orthographic_context(&self) -> (b: bool)
        requires
            self.wf(),
        ensures
            b == (forall|k: Seq<char>| !self@.orthographic_context.contains_key(k)),
    {
        let b = self.context_keys.is_empty();
        proof {
            if b {
                assert forall|k: Seq<char>| !self@.orthographic_context.contains_key(k) by {
                    assert(!self.context_keys@.contains(k));
                }
            } else {
                let k = choose|k: Seq<char>| self.context_keys@.contains(k);
                assert(self.context_keys@.contains(k));
                assert(self.orthographic_context@.contains_key(k));
                assert(self@.orthographic_context.contains_key(k));
            }
        }
        b
    }

    /// Whether `tok`, in any case, is known as an abbreviation.
    pub fn contains_abbrev(&self, tok: &str) -> (b: bool)
        ensures
            b == self@.contains_abbrev(tok@),
    {
        let key = lowercase(tok);
        self.abbrevs.contains(key.as_str())
    }

    /// Adds `tok`, in lower case, to the abbreviations. Says whether it was
    /// new.
    pub fn insert_abbrev(&mut self, tok: &str) -> (b: bool)
        requires
            old(self).wf(),
        ensures
            final(self).wf(),
            final(self)@ == old(self)@.with_abbrev(tok@),
            b == !old(self)@.contains_abbrev(tok@),
    {
        let key = lowercase(tok);
        proof {
            lemma_lower_idempotent(tok@);
        }
        let b = self.abbrevs.insert(key.as_str());
        assert(final(self)@.collocations =~= old(self)@.collocations);
        b
    }

    /// Takes `tok`, in any case, out of the abbreviations. Says whether it
    /// was there.
    pub fn remove_abbrev(&mut self, tok: &str) -> (b: bool)
        requires
            old(self).wf(),
        ensures
            final(self).wf(),
            final(self)@ == old(self)@.without_abbrev(tok@),
            b == old(self)@.contains_abbrev(tok@),
    {
        let key = lowercase(tok);
        let b = self.abbrevs.remove(key.as_str());
        assert(final(self)@.collocations =~= old(self)@.collocations);
        b
    }

    /// Whether `tok`, in any case, is known to start sentences often.
    pub fn contains_sentence_starter(&self, tok: &str) -> (b: bool)
        ensures
            b == self@.contains_sentence_starter(tok@),
    {
        let key = lowercase(tok);
        self.sentence_starters.contains(key.as_str())
    }

    /// Adds `tok`, in lower case, to the sentence starters. Says whether it
    /// was new.
    pub fn insert_sentence_starter(&mut self, tok: &str) -> (b: bool)
        requires
            old(self).wf(),
        ensures
            final(self).wf(),
            final(self)@ == old(self)@.with_sentence_starter(tok@),
            b == !old(self)@.contains_sentence_starter(tok@),
    {
        let key = lowercase(tok);
        proof {
            lemma_lower_idempotent(tok@);
        }
        let b = self.sentence_starters.insert(key.as_str());
        assert(final(self)@.collocations =~= old(self)@.collocations);
        b
    }

    /// Whether `left` and `right`, in any case, are known to stand together
    /// often.
    pub fn contains_collocation(&self, left: &str, right: &str) -> (b: bool)
        requires
            self.wf(),
        ensures
            b == self@.contains_collocation(left@, right@),
    {
        let l = lowercase(left);
        let r = lowercase(right);
        match self.lefts.get(l.as_str()) {
            Some(at) => self.rights[*at].contains(r.as_str()),
            None => false,
        }
    }

    /// Adds the pair of `left` and `right`, in lower case, to the
    /// collocations. Says whether it was new.
    pub fn insert_collocation(&mut self, left: &str, right: &str) -> (b: bool)
        requires
            old(self).wf(),
        ensures
            final(self).wf(),
            final(self)@ == old(self)@.with_collocation(left@, right@),
            b == !old(self)@.contains_collocation(left@, right@),
    {
        let l = lowercase(left);
        let r = lowercase(right);
        proof {
            lemma_lower_idempotent(left@);
            lemma_lower_idempotent(right@);
        }
        let ghost lk = l@;
        let ghost rk = r@;
        let found = match self.lefts.get(l.as_str()) {
            Some(at) => Some(*at),
            None => None,
        };
        let at: usize = match found {
            Some(at) => at,
            None => {
                let at = self.rights.len();
                self.rights.push(KeySet::new());
                self.left_keys.push(l.clone());
                self.lefts.insert(l, at);
                assert(self@.collocations =~= old(self)@.collocations);
                at
            },
        };
        let ghost mid = *self;
        assert(mid.lefts@.contains_key(lk) && mid.lefts@[lk] == at);
        let b = key_insert_at(&mut self.rights, at, r.as_str());
        proof {
            assert forall|i: int| 0 <= i < self.rights@.len() implies (#[trigger] self.rights@[i]).wf()
                && self.rights@[i].keys_view().len() > 0 by {
                if i != at {
                    assert(self.rights@[i] == mid.rights@[i]);
                    assert(i < old(self).rights@.len());
                    assert(mid.rights@[i] == old(self).rights@[i]);
                }
            }
            assert forall|i: int| 0 <= i < self.rights@.len() implies self.lefts@.contains_key(
                #[trigger] self.left_keys@[i]@,
            ) && self.lefts@[self.left_keys@[i]@] == i by {
                if i < old(self).rights@.len() {
                    assert(self.left_keys@[i] == old(self).left_keys@[i]);
                    assert(old(self).lefts@.contains_key(old(self).left_keys@[i]@));
                }
            }
            assert forall|l: Seq<char>| #[trigger] self.lefts@.contains_key(l) implies self.lefts@[l]
                < self.rights@.len() && self.left_keys@[self.lefts@[l] as int]@ == l by {
                if l != lk {
                    assert(old(self).lefts@.contains_key(l));
                    assert(self.left_keys@[old(self).lefts@[l] as int] == old(self).left_keys@[old(
                        self,
                    ).lefts@[l] as int]);
                }
            }
            assert(final(self)@.collocations =~= old(self)@.collocations.insert((lk, rk))) by {
                assert forall|p: (Seq<char>, Seq<char>)|
                    final(self)@.collocations.contains(p) == old(self)@.collocations.insert(
                        (lk, rk),
                    ).contains(p) by {
                    if mid.lefts@.contains_key(p.0) {
                        let q = mid.lefts@[p.0] as int;
                        if q == at {
                            assert(p.0 == lk);
                        } else {
                            assert(self.rights@[q] == mid.rights@[q]);
                            assert(old(self).lefts@.contains_key(p.0));
                            assert(mid.rights@[q] == old(self).rights@[q]);
                        }
                    }
                }
            }
        }
        b
    }

    /// The record of positions and cases of `tok`, in any case. It is 0
    /// where `tok` was never seen.
    pub fn get_orthographic_context(&self, tok: &str) -> (ctxt: u8)
        ensures
            ctxt == self@.ortho(tok@),
    {
        let key = lowercase(tok);
        match self.orthographic_context.get(key.as_str()) {
            Some(c) => *c,
            None => 0,
        }
    }

    /// Adds the bits of `ctxt` to the record of `tok`, in lower case. Says
    /// whether `tok` had no record before.
    pub fn insert_orthographic_context(&mut self, tok: &str, ctxt: OrthographicContext) -> (b:
        bool)
        requires
            old(self).wf(),
        ensures
            final(self).wf(),
            final(self)@ == old(self)@.with_ortho(tok@, ctxt),
            b == !old(self)@.orthographic_context.contains_key(lower(tok@)),
    {
        let key = lowercase(tok);
        proof {
            lemma_lower_idempotent(tok@);
        }
        let before = match self.orthographic_context.get(key.as_str()) {
            Some(c) => Some(*c),
            None => None,
        };
        match before {
            Some(c) => {
                self.orthographic_context.insert(key, c | ctxt);
                assert(final(self)@.collocations =~= old(self)@.collocations);
                false
            },
            None => {
                assert(0u8 | ctxt == ctxt) by (bit_vector);
                self.context_keys.insert(key.as_str());
                self.orthographic_context.insert(key, ctxt);
                assert(final(self)@.collocations =~= old(self)@.collocations);
                true
            },
        }
    }

    /// The abbreviations, each once.
    pub fn abbrevs(&self) -> (r: Vec<String>)
        ensures
            r@.map_values(|k: String| k@) == self.abbrev_list(),
    {
        keys_of(&self.abbrevs)
    }

    /// The sentence starters, each once.
    pub fn sentence_starters(&self) -> (r: Vec<String>)
        ensures
            r@.map_values(|k: String| k@) == self.sentence_starter_list(),
    {
        keys_of(&self.sentence_starters)
    }

    /// The collocations, each once, left and right.
    pub fn collocations(&self) -> (r: Vec<(String, String)>)
        requires
            self.wf(),
        ensures
            r@.map_values(|p: (String, String)| (p.0@, p.1@)) == self.collocation_list(),
    {
        let mut r: Vec<(String, String)> = Vec::new();
        let mut i: usize = 0;
        while i < self.rights.len()
            invariant
                i <= self.rights.len(),
                self.wf(),
                r@.map_values(|p: (String, String)| (p.0@, p.1@)) == self.pairs_upto(i as int),
            decreases self.rights.len() - i,
        {
            let ghost before = r@.map_values(|p: (String, String)| (p.0@, p.1@));
            let set = &self.rights[i];
            let mut j: usize = 0;
            while j < set.len()
                invariant
                    j <= set.keys_view().len(),
                    i < self.rights.len(),
                    self.left_keys.len() == self.rights.len(),
                    set == self.rights[i as int],
                    r@.map_values(|p: (String, String)| (p.0@, p.1@)) == before + self.pairs_at(
                        i as int,
                        j as int,
                    ),
                decreases set.keys_view().len() - j,
            {
                let ghost so_far = r@.map_values(|p: (String, String)| (p.0@, p.1@));
                let pair = (self.left_keys[i].clone(), set.key(j).to_owned());
                r.push(pair);
                assert(r@.map_values(|p: (String, String)| (p.0@, p.1@)) =~= so_far.push(
                    (pair.0@, pair.1@),
                ));
                assert(before + self.pairs_at(i as int, j as int + 1) =~= (before + self.pairs_at(
                    i as int,
                    j as int,
                )).push((pair.0@, pair.1@)));
                j += 1;
            }
            i += 1;
        }
        r
    }

    /// The types with a record of their orthographic context, each once and
    /// with its record.
    pub fn orthographic_contexts(&self) -> (r: Vec<(String, OrthographicContext)>)
        requires
            self.wf(),
        ensures
            r@.map_values(|p: (String, OrthographicContext)| (p.0@, p.1)) == self.context_list(),
    {
        let mut r: Vec<(String, OrthographicContext)> = Vec::new();
        let mut i: usize = 0;
        while i < self.context_keys.len()
            invariant
                i <= self.context_keys.keys_view().len(),
                self.wf(),
                r.len() == i,
                forall|k: int|
                    0 <= k < i ==> ((#[trigger] r[k]).0@, r[k].1) == self.context_list()[k],
            decreases self.context_keys.keys_view().len() - i,
        {
            let key = self.context_keys.key(i);
            proof {
                self.context_keys.lemma_keys();
                assert(self.context_keys.keys_view().contains(key@));
            }
            let ctxt = match self.orthographic_context.get(key) {
                Some(c) => *c,
                None => 0,
            };
            r.push((key.to_owned(), ctxt));
            i += 1;
        }
        assert(r@.map_values(|p: (String, OrthographicContext)| (p.0@, p.1)) =~= self.context_list());
        r
    }

    /// Whether the two hold the same four tables.
    pub fn same(&self, other: &TrainingData) -> (b: bool)
        requires
            self.wf(),
            other.wf(),
        ensures
            b == (self@ == other@),
    {
        let b = self.abbrevs.same(&other.abbrevs) && self.sentence_starters.same(
            &other.sentence_starters,
        ) && self.collocations_within(other) && other.collocations_within(self)
            && self.contexts_within(other) && other.contexts_within(self);
        proof {
            if b {
                assert(self@.collocations =~= other@.collocations);
                let mine = self@.orthographic_context;
                let theirs = other@.orthographic_context;
                assert(mine.submap_of(theirs) && theirs.submap_of(mine));
                assert forall|k: Seq<char>| mine.dom().contains(k) == theirs.dom().contains(k) by {
                    if mine.dom().contains(k) {
                        assert(theirs.dom().contains(k));
                    }
                    if theirs.dom().contains(k) {
                        assert(mine.dom().contains(k));
                    }
                }
                assert(mine.dom() =~= theirs.dom());
                assert forall|k: Seq<char>| mine.dom().contains(k) implies mine[k] == theirs[k] by {
                    assert(theirs.dom().contains(k));
                }
                assert(mine =~= theirs);
            }
        }
        b
    }

    /// Whether `other` knows every collocation of this data.
    fn collocations_within(&self, other: &TrainingData) -> (b: bool)
        requires
            self.wf(),
            other.wf(),
        ensures
            b == self@.collocations.subset_of(other@.collocations),
    {
        let mut i: usize = 0;
        while i < self.rights.len()
            invariant
                i <= self.rights.len(),
                self.wf(),
                other.wf(),
                forall|k: int, r: Seq<char>|
                    0 <= k < i && (#[trigger] self.rights@[k])@.contains(r)
                        ==> #[trigger] other@.collocations.contains((self.left_keys@[k]@, r)),
            decreases self.rights.len() - i,
        {
            let set = &self.rights[i];
            let found = other.lefts.get(self.left_keys[i].as_str());
            let ghost l = self.left_keys@[i as int]@;
            assert(self.lefts@.contains_key(l) && self.lefts@[l] == i);
            match found {
                None => {
                    proof {
                        let r = set.keys_view()[0];
                        set.lemma_keys();
                        assert(set.keys_view().contains(r));
                        assert(self@.collocations.contains((l, r)));
                        assert(!other@.collocations.contains((l, r)));
                    }
                    return false;
                },
                Some(at) => {
                    if !set.within(&other.rights[*at]) {
                        proof {
                            let r = choose|r: Seq<char>|
                                set@.contains(r) && !other.rights@[*at as int]@.contains(r);
                            assert(self@.collocations.contains((l, r)));
                            assert(!other@.collocations.contains((l, r)));
                        }
                        return false;
                    }
                    assert forall|r: Seq<char>| set@.contains(r) implies other@.collocations.contains(
                        (l, r),
                    ) by {
                        assert(other.rights@[*at as int]@.contains(r));
                    }
                },
            }
            i += 1;
        }
        proof {
            assert forall|p: (Seq<char>, Seq<char>)|
                self@.collocations.contains(p) implies other@.collocations.contains(p) by {
                let k = self.lefts@[p.0] as int;
                assert(self.left_keys@[k]@ == p.0);
                assert(self.rights@[k]@.contains(p.1));
            }
        }
        true
    }

    /// Whether `other` has every record of orthographic context of this
    /// data.
    fn contexts_within(&self, other: &TrainingData) -> (b: bool)
        requires
            self.wf(),
        ensures
            b == self@.orthographic_context.submap_of(other@.orthographic_context),
    {
        let mut i: usize = 0;
        proof {
            self.context_keys.lemma_keys();
        }
        while i < self.context_keys.len()
            invariant
                i <= self.context_keys.keys_view().len(),
                self.wf(),
                forall|k: Seq<char>| self.context_keys.keys_view().contains(k) <==> self.context_keys@.contains(k),
                forall|j: int|
                    0 <= j < i ==> other@.orthographic_context.contains_key(
                        #[trigger] self.context_keys.keys_view()[j],
                    ) && other@.orthographic_context[self.context_keys.keys_view()[j]]
                        == self@.orthographic_context[self.context_keys.keys_view()[j]],
            decreases self.context_keys.keys_view().len() - i,
        {
            let key = self.context_keys.key(i);
            assert(self.context_keys.keys_view().contains(key@));
            let mine = match self.orthographic_context.get(key) {
                Some(c) => *c,
                None => 0,
            };
            let same = match other.orthographic_context.get(key) {
                Some(c) => *c == mine,
                None => false,
            };
            if !same {
                assert(self@.orthographic_context.contains_key(key@));
                return false;
            }
            i += 1;
        }
        proof {
            assert forall|k: Seq<char>| #[trigger]
                self@.orthographic_context.dom().contains(k) implies other@.orthographic_context.dom().contains(
                k,
            ) && self@.orthographic_context[k] == other@.orthographic_context[k] by {
                assert(self.context_keys@.contains(k));
                let j = choose|j: int|
                    0 <= j < self.context_keys.keys_view().len()
                        && self.context_keys.keys_view()[j] == k;
                assert(other@.orthographic_context.contains_key(self.context_keys.keys_view()[j]));
            }
        }
        true
    }
}

impl Default for TrainingData {
    /// New data, with nothing in its tables.
    fn default() -> (d: TrainingData)
        ensures
            d.wf(),
            d@ == TrainingDataView::empty(),
    {
        TrainingData::new()
    }
}

/// The keys of a set, each once.
fn keys_of(set: &KeySet) -> (r: Vec<String>)
    ensures
        r@.map_values(|k: String| k@) == set.keys_view(),
{
    let mut r: Vec<String> = Vec::new();
    let mut i: usize = 0;
    while i < set.len()
        invariant
            i <= set.keys_view().len(),
            r.len() == i,
            forall|k: int| 0 <= k < i ==> (#[trigger] r[k])@ == set.keys_view()[k],
        decreases set.keys_view().len() - i,
    {
        r.push(set.key(i).to_owned());
        i += 1;
    }
    assert(r@.map_values(|k: String| k@) =~= set.keys_view());
    r
}

/// Adds `k` to the set at place `at`; the other sets stay as they are.
fn key_insert_at(sets: &mut Vec<KeySet>, at: usize, k: &str) -> (b: bool)
    requires
        at < old(sets).len(),
        old(sets)@[at as int].wf(),
    ensures
        final(sets).len() == old(sets).len(),
        final(sets)@[at as int].wf(),
        final(sets)@[at as int]@ == old(sets)@[at as int]@.insert(k@),
        final(sets)@[at as int].keys_view().len() > 0,
        forall|i: int| 0 <= i < old(sets).len() && i != at ==> final(sets)@[i] == old(sets)@[i],
        b == !old(sets)@[at as int]@.contains(k@),
{
    let set = &mut sets[at];
    let b = set.insert(k);
    proof {
        set.lemma_keys();
        if set.keys_view().len() == 0 {
            assert(set@.contains(k@));
            assert(set.keys_view().contains(k@));
        }
    }
    b
}

/// Every key of data that is in order is in lower case: it is equal to its
/// own lower case form.
pub proof fn lemma_keys_are_lowercase(d: TrainingData)
    requires
        d.wf(),
    ensures
        forall|k: Seq<char>| d@.abbrevs.contains(k) ==> lower(k) == k,
        forall|k: Seq<char>| d@.sentence_starters.contains(k) ==> lower(k) == k,
        forall|l: Seq<char>, r: Seq<char>| #[trigger]
            d@.collocations.contains((l, r)) ==> lower(l) == l && lower(r) == r,
        forall|k: Seq<char>| d@.orthographic_context.contains_key(k) ==> lower(k) == k,
{
    assert(d@.keys_lowered());
    assert forall|k: Seq<char>| d@.abbrevs.contains(k) implies lower(k) == k by {
        assert(lowered(k));
    }
    assert forall|k: Seq<char>| d@.sentence_starters.contains(k) implies lower(k) == k by {
        assert(lowered(k));
    }
    assert forall|k: Seq<char>| d@.orthographic_context.contains_key(k) implies lower(k) == k by {
        assert(lowered(k));
    }
}

/// The bits of two observations of one type add up: after both, the record
/// holds the bits of the first, those of the second, and those it held
/// before. For a type that was not seen before, these are the bits of the two
/// observations.
pub proof fn lemma_orthographic_context_accumulates(
    d: TrainingDataView,
    tok: Seq<char>,
    a: OrthographicContext,
    b: OrthographicContext,
)
    ensures
        d.with_ortho(tok, a).with_ortho(tok, b).ortho(tok) == d.ortho(tok) | a | b,
        d.ortho(tok) == 0 ==> d.with_ortho(tok, a).with_ortho(tok, b).ortho(tok) == a | b,
{
    let z: u8 = 0;
    assert(z | a | b == a | b) by (bit_vector)
        requires
            z == 0,
    ;
}

} // verus!
