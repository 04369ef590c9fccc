//! A finite set of identifiers.

use crate::id::{id_before, Id};
use crate::id_map::{enumerates, has_key, lemma_ascending_distinct, IdMap};
use vstd::prelude::*;

verus! {

/// The identifiers of `ids` stand in strictly ascending order.
pub open spec fn ascending_ids(ids: Seq<Id>) -> bool {
    forall|i: int, j: int| 0 <= i < j < ids.len() ==> id_before(ids[i], ids[j])
}

/// A finite set of identifiers. Its view is a `Set<Id>`.
#[derive(Debug)]
pub struct IdSet {
    members: IdMap<()>,
}

impl View for IdSet {
    type V = Set<Id>;

    closed spec fn view(&self) -> Set<Id> {
        self.members@.dom()
    }
}

impl IdSet {
    /// The empty set.
    pub fn new() -> (s: Self)
        ensures
            s@ == Set::<Id>::empty(),
    {
        let s = IdSet { members: IdMap::new() };
        proof {
            assert(s@ =~= Set::<Id>::empty());
        }
        s
    }

    /// The number of members.
    pub fn len(&self) -> (n: usize)
        ensures
            n == self@.len(),
            self@.finite(),
    {
        self.members.len()
    }

    /// Whether the set has no member.
    pub fn is_empty(&self) -> (r: bool)
        ensures
            r == (self@ == Set::<Id>::empty()),
    {
        let n: usize = self.members.len();
        proof {
            if n == 0 {
                assert forall|k: Id| !self@.contains(k) by {
                    if self.members@.contains_key(k) {
                        assert(has_key(self.members.entries(), k));
                    }
                }
                assert(self@ =~= Set::<Id>::empty());
            } else {
                assert(self@.contains(self.members.entries()[0].0));
            }
        }
        n == 0
    }

    /// Whether `id` is a member.
    pub fn contains(&self, id: &Id) -> (r: bool)
        ensures
            r == self@.contains(*id),
    {
        self.members.contains_key(id)
    }

    /// Adds `id` to the set and says whether it was new. Nothing ever leaves.
    pub fn insert(&mut self, id: Id) -> (fresh: bool)
        ensures
            final(self)@ == old(self)@.insert(id),
            fresh == !old(self)@.contains(id),
    {
        let fresh = !self.members.contains_key(&id);
        self.members.insert(id, ());
        proof {
            assert(self@ =~= old(self)@.insert(id));
        }
        fresh
    }

    /// Whether every member of this set is a member of `other`.
    pub fn is_subset(&self, other: &IdSet) -> (r: bool)
        ensures
            r == self@.subset_of(other@),
    {
        let n: usize = self.members.len();
        let mut i: usize = 0;
        while i < n
            invariant
                n == self.members.entries().len(),
                i <= n,
                enumerates(self.members.entries(), self.members@),
                forall|j: int|
                    0 <= j < i ==> other@.contains((#[trigger] self.members.entries()[j]).0),
            decreases n - i,
        {
            if !other.contains(self.members.key_at(i)) {
                proof {
                    assert(self@.contains(self.members.entries()[i as int].0));
                }
                return false;
            }
            i += 1;
        }
        proof {
            assert forall|k: Id| self@.contains(k) implies other@.contains(k) by {
                assert(self.members@.contains_key(k));
                assert(has_key(self.members.entries(), k));
            }
        }
        true
    }

    /// The members in ascending order, each once.
    pub fn to_vec(&self) -> (v: Vec<Id>)
        ensures
            ascending_ids(v@),
            v@.no_duplicates(),
            v@.to_set() == self@,
            v@.len() == self@.len(),
    {
        let n: usize = self.members.len();
        let mut v: Vec<Id> = Vec::with_capacity(n);
        let mut i: usize = 0;
        while i < n
            invariant
                n == self.members.entries().len(),
                i <= n,
                v@.len() == i,
                forall|j: int| 0 <= j < i ==> v@[j] == (#[trigger] self.members.entries()[j]).0,
            decreases n - i,
        {
            v.push(*self.members.key_at(i));
            i += 1;
        }
        proof {
            let entries = self.members.entries();
            assert forall|a: int, b: int| 0 <= a < b < v@.len() implies id_before(v@[a], v@[b]) by {
                assert(id_before(entries[a].0, entries[b].0));
            }
            assert forall|a: int, b: int| 0 <= a < v@.len() && 0 <= b < v@.len() && a != b implies v@[a]
                != v@[b] by {
                if v@[a] == v@[b] {
                    lemma_ascending_distinct(entries, a, b);
                }
            }
            assert forall|k: Id| v@.to_set().contains(k) <==> self@.contains(k) by {
                if v@.to_set().contains(k) {
                    let j = choose|j: int| 0 <= j < v@.len() && v@[j] == k;
                    assert(entries[j].0 == k);
                }
                if self@.contains(k) {
                    assert(self.members@.contains_key(k));
                    assert(has_key(entries, k));
                    let j = choose|j: int| 0 <= j < entries.len() && (#[trigger] entries[j]).0 == k;
                    assert(v@[j] == k);
                }
            }
            assert(v@.to_set() =~= self@);
        }
        v
    }
}

impl Clone for IdSet {
    /// A copy with the same members.
    fn clone(&self) -> (s: Self)
        ensures
            s@ == self@,
    {
        IdSet { members: self.members.clone() }
    }
}

} // verus!
