//! A finite map keyed by identifiers.
//!
//! The map is stored as a list of entries in ascending order of their keys,
//! which are therefore pairwise distinct. Its view is a `Map<Id, V>`; the list
//! itself is visible to callers as the enumeration of that map in key order,
//! for walking it by index.

use crate::id::{
    id_before, lemma_before_asymmetric, lemma_before_irreflexive, lemma_before_transitive,
    rank_ids, Id, Rank,
};
use vstd::prelude::*;

verus! {

/// The keys of `entries` stand in strictly ascending order.
pub open spec fn ascending<V>(entries: Seq<(Id, V)>) -> bool {
    forall|i: int, j: int|
        0 <= i < j < entries.len() ==> id_before(
            (#[trigger] entries[i]).0,
            (#[trigger] entries[j]).0,
        )
}

/// Some position of `entries` holds the key `k`.
pub open spec fn has_key<V>(entries: Seq<(Id, V)>, k: Id) -> bool {
    exists|i: int| 0 <= i < entries.len() && (#[trigger] entries[i]).0 == k
}

/// A position of `entries` that holds the key `k`, if there is one.
spec fn slot_of<V>(entries: Seq<(Id, V)>, k: Id) -> int {
    choose|i: int| 0 <= i < entries.len() && (#[trigger] entries[i]).0 == k
}

/// The map that a list of entries stands for.
spec fn map_of<V>(entries: Seq<(Id, V)>) -> Map<Id, V> {
    Map::new(|k: Id| has_key(entries, k), |k: Id| entries[slot_of(entries, k)].1)
}

/// `entries` enumerates `m` in key order: every key of `m` stands at exactly
/// one position, together with the value that `m` gives it, nothing else is
/// listed, and the keys ascend.
pub open spec fn enumerates<V>(entries: Seq<(Id, V)>, m: Map<Id, V>) -> bool {
    &&& ascending(entries)
    &&& forall|i: int|
        0 <= i < entries.len() ==> m.contains_key((#[trigger] entries[i]).0) && m[entries[i].0]
            == entries[i].1
    &&& forall|k: Id| #[trigger] m.contains_key(k) ==> has_key(entries, k)
    &&& m.dom().finite()
    &&& m.len() == entries.len()
}

/// `k` belongs at position `at` of `entries`: every key to the left comes
/// before it, and it comes before every key from `at` on.
spec fn belongs_at<V>(entries: Seq<(Id, V)>, k: Id, at: int) -> bool {
    &&& 0 <= at <= entries.len()
    &&& forall|j: int| 0 <= j < at ==> id_before((#[trigger] entries[j]).0, k)
    &&& forall|j: int| at <= j < entries.len() ==> id_before(k, (#[trigger] entries[j]).0)
}

/// In an ascending list no key occurs twice.
pub proof fn lemma_ascending_distinct<V>(entries: Seq<(Id, V)>, i: int, j: int)
    requires
        ascending(entries),
        0 <= i < entries.len(),
        0 <= j < entries.len(),
        entries[i].0 == entries[j].0,
    ensures
        i == j,
{
    if i < j {
        lemma_before_asymmetric(entries[i].0, entries[j].0);
    } else if j < i {
        lemma_before_asymmetric(entries[j].0, entries[i].0);
    }
}

/// In an ascending list the position of a key is determined by the key.
proof fn lemma_slot_unique<V>(entries: Seq<(Id, V)>, i: int)
    requires
        ascending(entries),
        0 <= i < entries.len(),
    ensures
        has_key(entries, entries[i].0),
        slot_of(entries, entries[i].0) == i,
        map_of(entries).contains_key(entries[i].0),
        map_of(entries)[entries[i].0] == entries[i].1,
{
    let j = slot_of(entries, entries[i].0);
    lemma_ascending_distinct(entries, i, j);
}

/// A key that belongs at a position of a list is not listed.
proof fn lemma_belongs_unlisted<V>(entries: Seq<(Id, V)>, k: Id, at: int)
    requires
        belongs_at(entries, k, at),
    ensures
        !has_key(entries, k),
        !map_of(entries).contains_key(k),
{
    if has_key(entries, k) {
        let j = slot_of(entries, k);
        assert(entries[j].0 == k);
        lemma_before_irreflexive(k);
    }
}

/// An ascending list enumerates the map it stands for.
proof fn lemma_map_of_enumerated<V>(entries: Seq<(Id, V)>)
    requires
        ascending(entries),
    ensures
        enumerates(entries, map_of(entries)),
{
    let m = map_of(entries);
    assert forall|i: int| 0 <= i < entries.len() implies m.contains_key(
        (#[trigger] entries[i]).0,
    ) && m[entries[i].0] == entries[i].1 by {
        lemma_slot_unique(entries, i);
    }
    let keys = entries.map_values(|e: (Id, V)| e.0);
    assert forall|i: int, j: int| 0 <= i < keys.len() && 0 <= j < keys.len() && i != j implies keys[i]
        != keys[j] by {
        if keys[i] == keys[j] {
            lemma_ascending_distinct(entries, i, j);
        }
    }
    keys.unique_seq_to_set();
    assert forall|k: Id| m.dom().contains(k) <==> keys.to_set().contains(k) by {
        if m.dom().contains(k) {
            let i = slot_of(entries, k);
            assert(keys[i] == k);
        }
        if keys.to_set().contains(k) {
            let i = choose|i: int| 0 <= i < keys.len() && keys[i] == k;
            assert(entries[i].0 == k);
        }
    }
    assert(m.dom() =~= keys.to_set());
}

/// Putting an entry where its key belongs keeps the list ascending and
/// inserts the entry into the map.
proof fn lemma_map_of_insert<V>(entries: Seq<(Id, V)>, at: int, k: Id, v: V)
    requires
        ascending(entries),
        belongs_at(entries, k, at),
    ensures
        ascending(entries.insert(at, (k, v))),
        map_of(entries.insert(at, (k, v))) == map_of(entries).insert(k, v),
{
    let grown = entries.insert(at, (k, v));
    assert forall|i: int, j: int| 0 <= i < j < grown.len() implies id_before(
        (#[trigger] grown[i]).0,
        (#[trigger] grown[j]).0,
    ) by {
        if j < at {
            assert(grown[i] == entries[i] && grown[j] == entries[j]);
        } else if j == at {
            assert(grown[i] == entries[i]);
        } else if i < at {
            assert(grown[i] == entries[i] && grown[j] == entries[j - 1]);
        } else if i == at {
            assert(grown[j] == entries[j - 1]);
        } else {
            assert(grown[i] == entries[i - 1] && grown[j] == entries[j - 1]);
        }
    }
    lemma_belongs_unlisted(entries, k, at);
    assert(grown[at] == (k, v));
    assert forall|x: Id| #[trigger] map_of(grown).contains_key(x) <==> map_of(entries).insert(
        k,
        v,
    ).contains_key(x) by {
        if has_key(grown, x) && x != k {
            let i = slot_of(grown, x);
            if i < at {
                assert(entries[i].0 == x);
            } else {
                assert(entries[i - 1].0 == x);
            }
        }
        if has_key(entries, x) {
            let i = slot_of(entries, x);
            if i < at {
                assert(grown[i].0 == x);
            } else {
                assert(grown[i + 1].0 == x);
            }
        }
    }
    assert forall|x: Id| #[trigger] map_of(grown).contains_key(x) implies map_of(grown)[x]
        == map_of(entries).insert(k, v)[x] by {
        let i = slot_of(grown, x);
        lemma_slot_unique(grown, i);
        if x == k {
            lemma_slot_unique(grown, at);
        } else if i < at {
            assert(entries[i] == grown[i]);
            lemma_slot_unique(entries, i);
        } else {
            assert(entries[i - 1] == grown[i]);
            lemma_slot_unique(entries, i - 1);
        }
    }
    assert(map_of(grown) =~= map_of(entries).insert(k, v));
}

/// Replacing the value at a position keeps the list ascending and inserts the
/// value under that position's key.
proof fn lemma_map_of_update<V>(entries: Seq<(Id, V)>, i: int, v: V)
    requires
        ascending(entries),
        0 <= i < entries.len(),
    ensures
        ascending(entries.update(i, (entries[i].0, v))),
        map_of(entries.update(i, (entries[i].0, v))) == map_of(entries).insert(entries[i].0, v),
{
    let k = entries[i].0;
    let changed = entries.update(i, (k, v));
    assert forall|a: int, b: int| 0 <= a < b < changed.len() implies id_before(
        (#[trigger] changed[a]).0,
        (#[trigger] changed[b]).0,
    ) by {
        assert(changed[a].0 == entries[a].0);
        assert(changed[b].0 == entries[b].0);
    }
    assert forall|x: Id| #[trigger] map_of(changed).contains_key(x) <==> map_of(entries).insert(
        k,
        v,
    ).contains_key(x) by {
        if has_key(changed, x) {
            let j = slot_of(changed, x);
            assert(entries[j].0 == x);
        }
        if has_key(entries, x) {
            let j = slot_of(entries, x);
            assert(changed[j].0 == x);
        }
        if x == k {
            assert(changed[i].0 == x);
        }
    }
    assert forall|x: Id| #[trigger] map_of(changed).contains_key(x) implies map_of(changed)[x]
        == map_of(entries).insert(k, v)[x] by {
        let j = slot_of(changed, x);
        lemma_slot_unique(changed, j);
        if x != k {
            assert(entries[j] == changed[j]);
            lemma_slot_unique(entries, j);
        } else {
            lemma_slot_unique(changed, i);
        }
    }
    assert(map_of(changed) =~= map_of(entries).insert(k, v));
}

/// Two enumerations of one map hold the same entry at each position.
proof fn lemma_same_entry_at<V>(first: Seq<(Id, V)>, second: Seq<(Id, V)>, m: Map<Id, V>, i: int)
    requires
        enumerates(first, m),
        enumerates(second, m),
        0 <= i < first.len(),
    ensures
        first[i] == second[i],
    decreases i,
{
    let k1 = first[i].0;
    let k2 = second[i].0;
    // Where each list holds the key that the other holds at position `i`.
    assert(m.contains_key(k1));
    assert(has_key(second, k1));
    let j1 = slot_of(second, k1);
    assert(m.contains_key(k2));
    assert(has_key(first, k2));
    let j2 = slot_of(first, k2);
    if j1 < i {
        lemma_same_entry_at(first, second, m, j1);
        lemma_ascending_distinct(first, j1, i);
    }
    if j2 < i {
        lemma_same_entry_at(first, second, m, j2);
        lemma_ascending_distinct(second, j2, i);
    }
    if k1 != k2 {
        // `k1` stands right of `i` in `second`, and `k2` right of `i` in `first`.
        assert(id_before(second[i].0, second[j1].0));
        assert(id_before(first[i].0, first[j2].0));
        lemma_before_asymmetric(k1, k2);
    }
}

/// A map has only one enumeration in key order.
pub proof fn lemma_enumeration_unique<V>(first: Seq<(Id, V)>, second: Seq<(Id, V)>, m: Map<Id, V>)
    requires
        enumerates(first, m),
        enumerates(second, m),
    ensures
        first == second,
{
    assert forall|i: int| 0 <= i < first.len() implies first[i] == second[i] by {
        lemma_same_entry_at(first, second, m, i);
    }
    assert(first =~= second);
}

/// A finite map from identifiers to values of type `V`.
#[derive(Debug)]
pub struct IdMap<V> {
    entries: Vec<(Id, V)>,
}

impl<V> View for IdMap<V> {
    type V = Map<Id, V>;

    closed spec fn view(&self) -> Map<Id, V> {
        map_of(self.entries@)
    }
}

impl<V> IdMap<V> {
    #[verifier::type_invariant]
    spec fn well_formed(self) -> bool {
        ascending(self.entries@)
    }

    /// The entries in ascending order of their keys.
    pub closed spec fn entries(&self) -> Seq<(Id, V)> {
        self.entries@
    }

    /// The empty map.
    pub fn new() -> (m: Self)
        ensures
            m@ == Map::<Id, V>::empty(),
    {
        let m = IdMap { entries: Vec::new() };
        proof {
            assert(m@ =~= Map::<Id, V>::empty());
        }
        m
    }

    /// The number of keys. The call also hands the caller the fact that
    /// `entries()` enumerates the map in key order, which a walk by index
    /// relies on.
    pub fn len(&self) -> (n: usize)
        ensures
            n == self@.len(),
            n == self.entries().len(),
            enumerates(self.entries(), self@),
    {
        proof {
            use_type_invariant(self);
            lemma_map_of_enumerated(self.entries@);
        }
        self.entries.len()
    }

    /// The key at position `i` of the enumeration.
    pub fn key_at(&self, i: usize) -> (k: &Id)
        requires
            i < self.entries().len(),
        ensures
            *k == self.entries()[i as int].0,
    {
        &self.entries[i].0
    }

    /// The value at position `i` of the enumeration.
    pub fn value_at(&self, i: usize) -> (v: &V)
        requires
            i < self.entries().len(),
        ensures
            *v == self.entries()[i as int].1,
    {
        &self.entries[i].1
    }

    /// Looks `k` up by bisection. Says whether it is listed, and the position
    /// at which it stands or, if it is not listed, belongs.
    fn search(&self, k: &Id) -> (r: (bool, usize))
        ensures
            r.0 ==> r.1 < self.entries@.len() && self.entries@[r.1 as int].0 == *k,
            !r.0 ==> belongs_at(self.entries@, *k, r.1 as int),
    {
        proof {
            use_type_invariant(self);
        }
        let mut low: usize = 0;
        let mut high: usize = self.entries.len();
        while low < high
            invariant
                ascending(self.entries@),
                low <= high <= self.entries@.len(),
                forall|j: int| 0 <= j < low ==> id_before((#[trigger] self.entries@[j]).0, *k),
                forall|j: int|
                    high <= j < self.entries@.len() ==> id_before(
                        *k,
                        (#[trigger] self.entries@[j]).0,
                    ),
            decreases high - low,
        {
            let middle: usize = low + (high - low) / 2;
            let probe = &self.entries[middle].0;
            match rank_ids(probe, k) {
                Rank::Same => {
                    return (true, middle);
                },
                Rank::Before => {
                    proof {
                        assert forall|j: int| 0 <= j < middle + 1 implies id_before(
                            (#[trigger] self.entries@[j]).0,
                            *k,
                        ) by {
                            if j < middle {
                                lemma_before_transitive(self.entries@[j].0, *probe, *k);
                            }
                        }
                    }
                    low = middle + 1;
                },
                Rank::After => {
                    proof {
                        assert forall|j: int| middle <= j < self.entries@.len() implies id_before(
                            *k,
                            (#[trigger] self.entries@[j]).0,
                        ) by {
                            if middle < j {
                                lemma_before_transitive(*k, *probe, self.entries@[j].0);
                            }
                        }
                    }
                    high = middle;
                },
            }
        }
        (false, low)
    }

    /// Whether `k` is a key of the map.
    pub fn contains_key(&self, k: &Id) -> (r: bool)
        ensures
            r == self@.contains_key(*k),
    {
        let (found, at) = self.search(k);
        proof {
            if !found {
                lemma_belongs_unlisted(self.entries@, *k, at as int);
            }
        }
        found
    }

    /// The value stored under `k`, if any.
    pub fn get(&self, k: &Id) -> (r: Option<&V>)
        ensures
            r == (if self@.contains_key(*k) {
                Some(&self@[*k])
            } else {
                None
            }),
    {
        let (found, at) = self.search(k);
        if found {
            proof {
                use_type_invariant(self);
                lemma_slot_unique(self.entries@, at as int);
            }
            Some(&self.entries[at].1)
        } else {
            proof {
                lemma_belongs_unlisted(self.entries@, *k, at as int);
            }
            None
        }
    }

    /// Stores `v` under `k`, replacing whatever was stored there before.
    pub fn insert(&mut self, k: Id, v: V)
        ensures
            final(self)@ == old(self)@.insert(k, v),
    {
        proof {
            use_type_invariant(&*self);
        }
        let (found, at) = self.search(&k);
        let mut entries: Vec<(Id, V)> = Vec::new();
        core::mem::swap(&mut entries, &mut self.entries);
        if found {
            proof {
                lemma_map_of_update(entries@, at as int, v);
            }
            entries[at] = (k, v);
        } else {
            proof {
                lemma_map_of_insert(entries@, at as int, k, v);
            }
            entries.insert(at, (k, v));
        }
        self.entries = entries;
    }
}

impl<V: Copy> Clone for IdMap<V> {
    /// A copy that holds the same entries.
    fn clone(&self) -> (m: Self)
        ensures
            m@ == self@,
            m.entries() == self.entries(),
    {
        proof {
            use_type_invariant(self);
        }
        let n: usize = self.entries.len();
        let mut entries: Vec<(Id, V)> = Vec::with_capacity(n);
        let mut i: usize = 0;
        while i < n
            invariant
                n == self.entries@.len(),
                i <= n,
                entries@ == self.entries@.take(i as int),
            decreases n - i,
        {
            let entry = self.entries[i];
            entries.push(entry);
            proof {
                assert(entries@ =~= self.entries@.take(i + 1));
            }
            i += 1;
        }
        proof {
            assert(entries@ =~= self.entries@);
        }
        IdMap { entries }
    }
}

} // verus!
