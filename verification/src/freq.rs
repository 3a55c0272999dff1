//! Frequency distributions: how often each key was seen, for keys that are
//! strings and for keys that are pairs of strings.

use vstd::prelude::*;
use vstd::hash_map::StringHashMap;
use vstd::multiset::*;
use vstd::string::*;

verus! {

broadcast use group_multiset_axioms;

/// Counts how often each string was seen. Its view is the multiset of all
/// strings that were inserted.
pub struct FrequencyDistribution {
    counts: StringHashMap<usize>,
    /// The distinct keys, in the order in which each was first seen.
    order: Vec<String>,
    total: usize,
    model: Ghost<Multiset<Seq<char>>>,
}

impl View for FrequencyDistribution {
    type V = Multiset<Seq<char>>;

    closed spec fn view(&self) -> Multiset<Seq<char>> {
        self.model@
    }
}

/// Whether no entry of `keys` occurs twice.
pub open spec fn distinct<K>(keys: Seq<K>) -> bool {
    forall|i: int, j: int| 0 <= i < j < keys.len() ==> keys[i] != keys[j]
}

impl FrequencyDistribution {
    /// The distinct keys, in the order in which each was first seen.
    pub closed spec fn keys_view(&self) -> Seq<Seq<char>> {
        Seq::new(self.order@.len(), |i: int| self.order@[i]@)
    }

    /// Whether the distribution is in order: its counts, its keys and its
    /// sum agree with the multiset of what was inserted.
    pub closed spec fn wf(&self) -> bool {
        &&& forall|k: Seq<char>| #[trigger]
            self.counts@.contains_key(k) <==> self.model@.count(k) > 0
        &&& forall|k: Seq<char>| #[trigger]
            self.counts@.contains_key(k) ==> self.counts@[k] == self.model@.count(k)
        &&& self.total == self.model@.len()
        &&& distinct(self.keys_view())
        &&& forall|i: int|
            0 <= i < self.order@.len() ==> self.model@.count(#[trigger] self.order@[i]@) > 0
        &&& forall|k: Seq<char>|
            self.model@.count(k) > 0 ==> exists|i: int|
                0 <= i < self.order@.len() && #[trigger] self.order@[i]@ == k
    }

    /// The keys of a distribution in order are distinct, and they are the
    /// strings that were seen at least once.
    pub proof fn lemma_keys(&self)
        requires
            self.wf(),
        ensures
            distinct(self.keys_view()),
            forall|k: Seq<char>| self.keys_view().contains(k) <==> self@.count(k) > 0,
    {
        assert forall|k: Seq<char>| self.keys_view().contains(k) <==> self@.count(k) > 0 by {
            if self.keys_view().contains(k) {
                let i = choose|i: int| 0 <= i < self.keys_view().len() && self.keys_view()[i] == k;
                assert(self.order@[i]@ == k);
            }
            if self@.count(k) > 0 {
                let i = choose|i: int| 0 <= i < self.order@.len() && #[trigger] self.order@[i]@ == k;
                assert(self.keys_view()[i] == k);
            }
        }
    }

    /// A new distribution, in which nothing was seen.
    pub fn new() -> (d: FrequencyDistribution)
        ensures
            d.wf(),
            d@ == Multiset::<Seq<char>>::empty(),
            d.keys_view() == Seq::<Seq<char>>::empty(),
    {
        let d = FrequencyDistribution {
            counts: StringHashMap::new(),
            order: Vec::new(),
            total: 0,
            model: Ghost(Multiset::empty()),
        };
        assert(d.keys_view() =~= Seq::<Seq<char>>::empty());
        d
    }

    /// Counts `key` once more. Says whether it was seen for the first time;
    /// if so, it becomes the last of the keys.
    pub fn insert(&mut self, key: &str) -> (fresh: bool)
        requires
            old(self).wf(),
            old(self)@.len() < usize::MAX,
        ensures
            final(self).wf(),
            final(self)@ == old(self)@.insert(key@),
            fresh == (old(self)@.count(key@) == 0),
            final(self).keys_view() == if fresh {
                old(self).keys_view().push(key@)
            } else {
                old(self).keys_view()
            },
    {
        broadcast use group_multiset_properties;

        let ghost before = *self;
        let seen = match self.counts.get(key) {
            Some(n) => Some(*n),
            None => None,
        };
        let fresh = match seen {
            Some(n) => {
                assert(n <= before.model@.len()) by {
                    axiom_count_le_len(before.model@, key@);
                }
                self.counts.insert(key.to_owned(), n + 1);
                false
            },
            None => {
                self.counts.insert(key.to_owned(), 1);
                self.order.push(key.to_owned());
                true
            },
        };
        self.total = self.total + 1;
        self.model = Ghost(before.model@.insert(key@));
        proof {
            let m0 = before.model@;
            let m1 = self.model@;
            assert forall|k: Seq<char>| #[trigger] m1.count(k) == if k == key@ {
                m0.count(k) + 1
            } else {
                m0.count(k)
            } by {
                if k == key@ {
                    lemma_insert_increases_count_by_1(m0, key@);
                } else {
                    lemma_insert_other_elements_unchanged(m0, key@, k);
                }
            }
            lemma_insert_len(m0, key@);
            if fresh {
                assert(self.keys_view() =~= before.keys_view().push(key@));
                assert forall|i: int, j: int|
                    0 <= i < j < self.keys_view().len() implies self.keys_view()[i]
                    != self.keys_view()[j] by {
                    if j == before.order@.len() {
                        assert(m0.count(before.order@[i]@) > 0);
                    } else {
                        assert(before.keys_view()[i] != before.keys_view()[j]);
                    }
                }
                assert forall|k: Seq<char>| m1.count(k) > 0 implies exists|i: int|
                    0 <= i < self.order@.len() && #[trigger] self.order@[i]@ == k by {
                    if k == key@ {
                        assert(self.order@[before.order@.len() as int]@ == k);
                    } else {
                        let i = choose|i: int|
                            0 <= i < before.order@.len() && #[trigger] before.order@[i]@ == k;
                        assert(self.order@[i]@ == k);
                    }
                }
            } else {
                assert(self.keys_view() =~= before.keys_view());
                assert forall|k: Seq<char>| m1.count(k) > 0 implies exists|i: int|
                    0 <= i < self.order@.len() && #[trigger] self.order@[i]@ == k by {
                    let i = choose|i: int|
                        0 <= i < before.order@.len() && #[trigger] before.order@[i]@ == k;
                    assert(self.order@[i]@ == k);
                }
            }
        }
        fresh
    }

    /// How often `key` was seen.
    pub fn get(&self, key: &str) -> (n: usize)
        requires
            self.wf(),
        ensures
            n == self@.count(key@),
    {
        match self.counts.get(key) {
            Some(n) => *n,
            None => 0,
        }
    }

    /// How often any key was seen, all keys taken together.
    pub fn sum_counts(&self) -> (n: usize)
        requires
            self.wf(),
        ensures
            n == self@.len(),
    {
        self.total
    }

    /// The number of distinct keys.
    pub fn len(&self) -> (n: usize)
        ensures
            n == self.keys_view().len(),
    {
        self.order.len()
    }

    /// The key at place `i` in the order in which the keys were first seen.
    pub fn key(&self, i: usize) -> (k: &str)
        requires
            i < self.keys_view().len(),
        ensures
            k@ == self.keys_view()[i as int],
    {
        self.order[i].as_str()
    }

    /// The distinct keys, in the order in which each was first seen.
    pub fn keys(&self) -> (ks: Vec<String>)
        ensures
            ks.len() == self.keys_view().len(),
            forall|i: int| 0 <= i < ks.len() ==> #[trigger] ks[i]@ == self.keys_view()[i],
    {
        let mut ks: Vec<String> = Vec::new();
        let mut i: usize = 0;
        while i < self.order.len()
            invariant
                i <= self.order.len(),
                ks.len() == i,
                forall|j: int| 0 <= j < i ==> #[trigger] ks[j]@ == self.keys_view()[j],
            decreases self.order.len() - i,
        {
            ks.push(self.order[i].clone());
            i += 1;
        }
        ks
    }

    /// Forgets everything that was seen.
    pub fn clear(&mut self)
        ensures
            final(self).wf(),
            final(self)@ == Multiset::<Seq<char>>::empty(),
            final(self).keys_view() == Seq::<Seq<char>>::empty(),
    {
        self.counts.clear();
        self.order.clear();
        self.total = 0;
        self.model = Ghost(Multiset::empty());
        assert(self.keys_view() =~= Seq::<Seq<char>>::empty());
    }
}

/// Counts how often each pair of strings was seen. Its view is the
/// multiset of all pairs that were inserted.
pub struct PairDistribution {
    /// For each left string, the place of the counts of its right strings.
    lefts: StringHashMap<usize>,
    rights: Vec<FrequencyDistribution>,
    /// The distinct pairs, in the order in which each was first seen.
    order: Vec<(String, String)>,
    total: usize,
    model: Ghost<Multiset<(Seq<char>, Seq<char>)>>,
}

impl View for PairDistribution {
    type V = Multiset<(Seq<char>, Seq<char>)>;

    closed spec fn view(&self) -> Multiset<(Seq<char>, Seq<char>)> {
        self.model@
    }
}

impl PairDistribution {
    /// The distinct pairs, in the order in which each was first seen.
    pub closed spec fn keys_view(&self) -> Seq<(Seq<char>, Seq<char>)> {
        Seq::new(self.order@.len(), |i: int| (self.order@[i].0@, self.order@[i].1@))
    }

    /// How often the counts say that the pair was seen.
    spec fn counted(&self, l: Seq<char>, r: Seq<char>) -> nat {
        if self.lefts@.contains_key(l) && self.lefts@[l] < self.rights@.len() {
            self.rights@[self.lefts@[l] as int]@.count(r)
        } else {
            0
        }
    }

    /// Whether the distribution is in order: its counts, its keys and its
    /// sum agree with the multiset of what was inserted.
    pub closed spec fn wf(&self) -> bool {
        &&& forall|l: Seq<char>| #[trigger]
            self.lefts@.contains_key(l) ==> self.lefts@[l] < self.rights@.len()
        &&& forall|l1: Seq<char>, l2: Seq<char>|
            self.lefts@.contains_key(l1) && self.lefts@.contains_key(l2) && self.lefts@[l1]
                == self.lefts@[l2] ==> l1 == l2
        &&& forall|i: int|
            0 <= i < self.rights@.len() ==> (#[trigger] self.rights@[i]).wf() && self.rights@[i]@.len()
                <= self.total
        &&& forall|l: Seq<char>, r: Seq<char>| #[trigger]
            self.model@.count((l, r)) == self.counted(l, r)
        &&& self.total == self.model@.len()
        &&& distinct(self.keys_view())
        &&& forall|i: int|
            0 <= i < self.order@.len() ==> self.model@.count(#[trigger] self.keys_view()[i]) > 0
        &&& forall|p: (Seq<char>, Seq<char>)|
            self.model@.count(p) > 0 ==> exists|i: int|
                0 <= i < self.order@.len() && #[trigger] self.keys_view()[i] == p
    }

    /// The keys of a distribution in order are distinct, and they are the
    /// pairs that were seen at least once.
    pub proof fn lemma_keys(&self)
        requires
            self.wf(),
        ensures
            distinct(self.keys_view()),
            forall|p: (Seq<char>, Seq<char>)| self.keys_view().contains(p) <==> self@.count(p) > 0,
    {
        assert forall|p: (Seq<char>, Seq<char>)| self.keys_view().contains(p) <==> self@.count(p)
            > 0 by {
            if self.keys_view().contains(p) {
                let i = choose|i: int| 0 <= i < self.keys_view().len() && self.keys_view()[i] == p;
                assert(self.model@.count(self.keys_view()[i]) > 0);
            }
            if self@.count(p) > 0 {
                let i = choose|i: int|
                    0 <= i < self.order@.len() && #[trigger] self.keys_view()[i] == p;
                assert(self.keys_view()[i] == p);
            }
        }
    }

    /// A new distribution, in which nothing was seen.
    pub fn new() -> (d: PairDistribution)
        ensures
            d.wf(),
            d@ == Multiset::<(Seq<char>, Seq<char>)>::empty(),
            d.keys_view() == Seq::<(Seq<char>, Seq<char>)>::empty(),
    {
        let d = PairDistribution {
            lefts: StringHashMap::new(),
            rights: Vec::new(),
            order: Vec::new(),
            total: 0,
            model: Ghost(Multiset::empty()),
        };
        assert(d.keys_view() =~= Seq::<(Seq<char>, Seq<char>)>::empty());
        d
    }

    /// Counts the pair of `left` and `right` once more. Says whether it was
    /// seen for the first time; if so, it becomes the last of the keys.
    pub fn insert(&mut self, left: &str, right: &str) -> (fresh: bool)
        requires
            old(self).wf(),
            old(self)@.len() < usize::MAX,
        ensures
            final(self).wf(),
            final(self)@ == old(self)@.insert((left@, right@)),
            fresh == (old(self)@.count((left@, right@)) == 0),
            final(self).keys_view() == if fresh {
                old(self).keys_view().push((left@, right@))
            } else {
                old(self).keys_view()
            },
    {
        broadcast use group_multiset_properties;

        let ghost before = *self;
        let ghost pair = (left@, right@);
        let found = match self.lefts.get(left) {
            Some(at) => Some(*at),
            None => None,
        };
        let at: usize = match found {
            Some(at) => at,
            None => {
                let at = self.rights.len();
                self.rights.push(FrequencyDistribution::new());
                self.lefts.insert(left.to_owned(), at);
                at
            },
        };
        let ghost mid = *self;
        proof {
            assert forall|l: Seq<char>, r: Seq<char>| mid.counted(l, r) == before.counted(l, r) by {
                if before.lefts@.contains_key(l) {
                    assert(mid.rights@[before.lefts@[l] as int] == before.rights@[before.lefts@[l] as int]);
                }
            }
            assert(mid.lefts@.contains_key(left@) && mid.lefts@[left@] == at);
        }
        let fresh = fd_insert_at(&mut self.rights, at, right);
        if fresh {
            self.order.push((left.to_owned(), right.to_owned()));
        }
        self.total = self.total + 1;
        self.model = Ghost(before.model@.insert(pair));
        proof {
            let m0 = before.model@;
            let m1 = self.model@;
            lemma_insert_len(m0, pair);
            assert forall|p: (Seq<char>, Seq<char>)| #[trigger] m1.count(p) == if p == pair {
                m0.count(p) + 1
            } else {
                m0.count(p)
            } by {
                if p == pair {
                    lemma_insert_increases_count_by_1(m0, pair);
                } else {
                    lemma_insert_other_elements_unchanged(m0, pair, p);
                }
            }
            assert forall|l: Seq<char>, r: Seq<char>| #[trigger]
                m1.count((l, r)) == self.counted(l, r) by {
                assert(m0.count((l, r)) == before.counted(l, r));
                assert(mid.counted(l, r) == before.counted(l, r));
                if mid.lefts@.contains_key(l) {
                    let q = mid.lefts@[l] as int;
                    if q == at {
                        assert(l == left@);
                        if r == right@ {
                            lemma_insert_increases_count_by_1(mid.rights@[q]@, right@);
                        } else {
                            lemma_insert_other_elements_unchanged(mid.rights@[q]@, right@, r);
                        }
                    } else {
                        assert(self.rights@[q] == mid.rights@[q]);
                    }
                }
            }
            assert forall|i: int| 0 <= i < self.rights@.len() implies (#[trigger] self.rights@[i]).wf()
                && self.rights@[i]@.len() <= self.total by {
                if i == at {
                    lemma_insert_len(mid.rights@[i]@, right@);
                } else {
                    assert(self.rights@[i] == mid.rights@[i]);
                    if i < before.rights@.len() {
                        assert(mid.rights@[i] == before.rights@[i]);
                    }
                }
            }
            assert(fresh == (m0.count(pair) == 0)) by {
                assert(m0.count(pair) == before.counted(left@, right@));
                assert(mid.counted(left@, right@) == before.counted(left@, right@));
            }
            if fresh {
                assert(self.keys_view() =~= before.keys_view().push(pair));
                assert forall|i: int, j: int|
                    0 <= i < j < self.keys_view().len() implies self.keys_view()[i]
                    != self.keys_view()[j] by {
                    if j == before.order@.len() {
                        assert(m0.count(before.keys_view()[i]) > 0);
                    } else {
                        assert(before.keys_view()[i] != before.keys_view()[j]);
                    }
                }
                assert forall|i: int| 0 <= i < self.order@.len() implies m1.count(
                    #[trigger] self.keys_view()[i],
                ) > 0 by {
                    if i < before.order@.len() {
                        assert(m0.count(before.keys_view()[i]) > 0);
                    }
                }
                assert forall|p: (Seq<char>, Seq<char>)| m1.count(p) > 0 implies exists|i: int|
                    0 <= i < self.order@.len() && #[trigger] self.keys_view()[i] == p by {
                    if p == pair {
                        assert(self.keys_view()[before.order@.len() as int] == p);
                    } else {
                        let i = choose|i: int|
                            0 <= i < before.order@.len() && #[trigger] before.keys_view()[i] == p;
                        assert(self.keys_view()[i] == p);
                    }
                }
            } else {
                assert(self.keys_view() =~= before.keys_view());
                assert forall|i: int| 0 <= i < self.order@.len() implies m1.count(
                    #[trigger] self.keys_view()[i],
                ) > 0 by {
                    assert(m0.count(before.keys_view()[i]) > 0);
                }
                assert forall|p: (Seq<char>, Seq<char>)| m1.count(p) > 0 implies exists|i: int|
                    0 <= i < self.order@.len() && #[trigger] self.keys_view()[i] == p by {
                    let i = choose|i: int|
                        0 <= i < before.order@.len() && #[trigger] before.keys_view()[i] == p;
                    assert(self.keys_view()[i] == p);
                }
            }
        }
        fresh
    }

    /// How often the pair of `left` and `right` was seen.
    pub fn get(&self, left: &str, right: &str) -> (n: usize)
        requires
            self.wf(),
        ensures
            n == self@.count((left@, right@)),
    {
        assert(self.model@.count((left@, right@)) == self.counted(left@, right@));
        match self.lefts.get(left) {
            Some(at) => self.rights[*at].get(right),
            None => 0,
        }
    }

    /// How often any pair was seen, all pairs taken together.
    pub fn sum_counts(&self) -> (n: usize)
        requires
            self.wf(),
        ensures
            n == self@.len(),
    {
        self.total
    }

    /// The number of distinct pairs.
    pub fn len(&self) -> (n: usize)
        ensures
            n == self.keys_view().len(),
    {
        self.order.len()
    }

    /// The pair at place `i` in the order in which the pairs were first
    /// seen.
    pub fn key(&self, i: usize) -> (k: (&str, &str))
        requires
            i < self.keys_view().len(),
        ensures
            (k.0@, k.1@) == self.keys_view()[i as int],
    {
        (self.order[i].0.as_str(), self.order[i].1.as_str())
    }
}

/// Counts `key` once more in the distribution at place `at`; the others stay
/// as they are.
fn fd_insert_at(dists: &mut Vec<FrequencyDistribution>, at: usize, key: &str) -> (fresh: bool)
    requires
        at < old(dists).len(),
        old(dists)@[at as int].wf(),
        old(dists)@[at as int]@.len() < usize::MAX,
    ensures
        final(dists).len() == old(dists).len(),
        final(dists)@[at as int].wf(),
        final(dists)@[at as int]@ == old(dists)@[at as int]@.insert(key@),
        forall|i: int| 0 <= i < old(dists).len() && i != at ==> final(dists)@[i] == old(dists)@[i],
        fresh == (old(dists)@[at as int]@.count(key@) == 0),
{
    let dist = &mut dists[at];
    dist.insert(key)
}

} // verus!
