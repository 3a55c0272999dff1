//! Sets of strings that remember the order in which their keys came in.

use vstd::prelude::*;
use vstd::hash_set::StringHashSet;
use vstd::string::*;
use crate::freq::distinct;

verus! {

/// A set of strings. Its view is the set; its keys can be gone through one
/// by one.
pub struct KeySet {
    set: StringHashSet,
    /// The keys of the set, each once.
    order: Vec<String>,
}

impl View for KeySet {
    type V = Set<Seq<char>>;

    closed spec fn view(&self) -> Set<Seq<char>> {
        self.set@
    }
}

impl KeySet {
    /// The keys of the set, in the order in which `key` hands them out.
    pub closed spec fn keys_view(&self) -> Seq<Seq<char>> {
        Seq::new(self.order@.len(), |i: int| self.order@[i]@)
    }

    /// Whether the set is in order: its keys are distinct, and they are the
    /// strings that the set holds.
    pub closed spec fn wf(&self) -> bool {
        &&& distinct(self.keys_view())
        &&& forall|i: int| 0 <= i < self.order@.len() ==> self.set@.contains(#[trigger] self.order@[i]@)
        &&& forall|k: Seq<char>|
            self.set@.contains(k) ==> exists|i: int|
                0 <= i < self.order@.len() && #[trigger] self.order@[i]@ == k
    }

    /// The keys of a set in order are distinct, and they are the strings
    /// that the set holds.
    pub proof fn lemma_keys(&self)
        requires
            self.wf(),
        ensures
            distinct(self.keys_view()),
            forall|k: Seq<char>| self.keys_view().contains(k) <==> self@.contains(k),
    {
        assert forall|k: Seq<char>| self.keys_view().contains(k) <==> self@.contains(k) by {
            if self.keys_view().contains(k) {
                let i = choose|i: int| 0 <= i < self.keys_view().len() && self.keys_view()[i] == k;
                assert(self.order@[i]@ == k);
            }
            if self@.contains(k) {
                let i = choose|i: int| 0 <= i < self.order@.len() && #[trigger] self.order@[i]@ == k;
                assert(self.keys_view()[i] == k);
            }
        }
    }

    /// A new set, which holds nothing.
    pub fn new() -> (s: KeySet)
        ensures
            s.wf(),
            s@ == Set::<Seq<char>>::empty(),
            s.keys_view() == Seq::<Seq<char>>::empty(),
    {
        let s = KeySet { set: StringHashSet::new(), order: Vec::new() };
        assert(s.keys_view() =~= Seq::<Seq<char>>::empty());
        s
    }

    /// Whether the set holds `key`.
    pub fn contains(&self, key: &str) -> (b: bool)
        ensures
            b == self@.contains(key@),
    {
        self.set.contains(key)
    }

    /// Whether the set holds nothing.
    pub fn is_empty(&self) -> (b: bool)
        requires
            self.wf(),
        ensures
            b == (forall|k: Seq<char>| !self@.contains(k)),
            b == (self.keys_view().len() == 0),
    {
        let b = self.order.len() == 0;
        proof {
            if !b {
                assert(self.set@.contains(self.order@[0]@));
                assert(self@.contains(self.order@[0]@));
            } else {
                assert forall|k: Seq<char>| !self@.contains(k) by {
                    if self@.contains(k) {
                        assert(self.set@.contains(k));
                        let i = choose|i: int|
                            0 <= i < self.order@.len() && #[trigger] self.order@[i]@ == k;
                        assert(false);
                    }
                }
            }
        }
        b
    }

    /// The number of keys.
    pub fn len(&self) -> (n: usize)
        ensures
            n == self.keys_view().len(),
    {
        self.order.len()
    }

    /// The key at place `i`.
    pub fn key(&self, i: usize) -> (k: &str)
        requires
            i < self.keys_view().len(),
        ensures
            k@ == self.keys_view()[i as int],
    {
        self.order[i].as_str()
    }

    /// Adds `key` to the set. Says whether it was new; if so, it becomes the
    /// last of the keys.
    pub fn insert(&mut self, key: &str) -> (fresh: bool)
        requires
            old(self).wf(),
        ensures
            final(self).wf(),
            final(self)@ == old(self)@.insert(key@),
            fresh == !old(self)@.contains(key@),
            final(self).keys_view() == if fresh {
                old(self).keys_view().push(key@)
            } else {
                old(self).keys_view()
            },
    {
        let ghost before = *self;
        let fresh = self.set.insert(key.to_owned());
        if fresh {
            self.order.push(key.to_owned());
            proof {
                assert(self.keys_view() =~= before.keys_view().push(key@));
                assert forall|i: int, j: int|
                    0 <= i < j < self.keys_view().len() implies self.keys_view()[i]
                    != self.keys_view()[j] by {
                    if j == before.order@.len() {
                        assert(before.set@.contains(before.order@[i]@));
                    } else {
                        assert(before.keys_view()[i] != before.keys_view()[j]);
                    }
                }
                assert forall|k: Seq<char>| self.set@.contains(k) implies exists|i: int|
                    0 <= i < self.order@.len() && #[trigger] self.order@[i]@ == k by {
                    if k == key@ {
                        assert(self.order@[before.order@.len() as int]@ == k);
                    } else {
                        let i = choose|i: int|
                            0 <= i < before.order@.len() && #[trigger] before.order@[i]@ == k;
                        assert(self.order@[i]@ == k);
                    }
                }
            }
        } else {
            proof {
                assert(self.keys_view() =~= before.keys_view());
                assert(self.set@ =~= before.set@);
                assert forall|k: Seq<char>| self.set@.contains(k) implies exists|i: int|
                    0 <= i < self.order@.len() && #[trigger] self.order@[i]@ == k by {
                    let i = choose|i: int|
                        0 <= i < before.order@.len() && #[trigger] before.order@[i]@ == k;
                    assert(self.order@[i]@ == k);
                }
            }
        }
        fresh
    }

    /// Takes `key` out of the set. Says whether it was there. The other
    /// keys keep their order.
    pub fn remove(&mut self, key: &str) -> (found: bool)
        requires
            old(self).wf(),
        ensures
            final(self).wf(),
            final(self)@ == old(self)@.remove(key@),
            found == old(self)@.contains(key@),
            !found ==> final(self).keys_view() == old(self).keys_view(),
    {
        let ghost before = *self;
        let found = self.set.remove(key);
        if found {
            let wanted = key.to_owned();
            let mut at: usize = 0;
            while at < self.order.len() && self.order[at] != wanted
                invariant
                    at <= self.order.len(),
                    self.order == before.order,
                    wanted@ == key@,
                    forall|i: int| 0 <= i < at ==> (#[trigger] self.order@[i])@ != key@,
                decreases self.order.len() - at,
            {
                at += 1;
            }
            proof {
                let i = choose|i: int|
                    0 <= i < before.order@.len() && #[trigger] before.order@[i]@ == key@;
                assert(at < self.order.len());
            }
            self.order.remove(at);
            proof {
                let old_keys = before.keys_view();
                let new_keys = self.keys_view();
                assert(new_keys =~= old_keys.remove(at as int));
                assert forall|i: int, j: int| 0 <= i < j < new_keys.len() implies new_keys[i]
                    != new_keys[j] by {
                    let oi = if i < at {
                        i
                    } else {
                        i + 1
                    };
                    let oj = if j < at {
                        j
                    } else {
                        j + 1
                    };
                    assert(new_keys[i] == old_keys[oi]);
                    assert(new_keys[j] == old_keys[oj]);
                    assert(old_keys[oi] != old_keys[oj]);
                }
                assert forall|i: int| 0 <= i < self.order@.len() implies self.set@.contains(
                    #[trigger] self.order@[i]@,
                ) by {
                    let oi = if i < at {
                        i
                    } else {
                        i + 1
                    };
                    assert(self.order@[i]@ == new_keys[i]);
                    assert(new_keys[i] == old_keys[oi]);
                    assert(old_keys[oi] == before.order@[oi]@);
                    assert(before.set@.contains(before.order@[oi]@));
                    assert(old_keys[oi] != old_keys[at as int]);
                }
                assert forall|k: Seq<char>| self.set@.contains(k) implies exists|i: int|
                    0 <= i < self.order@.len() && #[trigger] self.order@[i]@ == k by {
                    let oi = choose|i: int|
                        0 <= i < before.order@.len() && #[trigger] before.order@[i]@ == k;
                    assert(oi != at);
                    let i = if oi < at {
                        oi
                    } else {
                        oi - 1
                    };
                    assert(new_keys[i] == old_keys[oi]);
                    assert(self.order@[i]@ == k);
                }
            }
        } else {
            proof {
                assert(self.set@ =~= before.set@);
            }
        }
        found
    }

    /// Whether the two sets hold the same strings.
    pub fn same(&self, other: &KeySet) -> (b: bool)
        requires
            self.wf(),
            other.wf(),
        ensures
            b == (self@ == other@),
    {
        let b = self.within(other) && other.within(self);
        proof {
            if b {
                assert(self@ =~= other@);
            }
        }
        b
    }

    /// Whether `other` holds every string of this set.
    pub fn within(&self, other: &KeySet) -> (b: bool)
        requires
            self.wf(),
        ensures
            b == self@.subset_of(other@),
    {
        let mut i: usize = 0;
        while i < self.order.len()
            invariant
                i <= self.order.len(),
                self.wf(),
                forall|j: int| 0 <= j < i ==> other@.contains(#[trigger] self.order@[j]@),
            decreases self.order.len() - i,
        {
            if !other.contains(self.order[i].as_str()) {
                assert(self@.contains(self.order@[i as int]@));
                return false;
            }
            i += 1;
        }
        proof {
            assert forall|k: Seq<char>| self@.contains(k) implies other@.contains(k) by {
                let j = choose|j: int| 0 <= j < self.order@.len() && #[trigger] self.order@[j]@ == k;
                assert(other@.contains(self.order@[j]@));
            }
        }
        true
    }
}

} // verus!
