//! Opaque fixed-width identifiers, their order, and logical time.

use vstd::prelude::*;

verus! {

/// Logical time: an integer clock advanced only by the caller.
pub type Time = u64;

/// A 32-byte opaque token. No meaning attaches to its bytes.
pub type Id = [u8; 32];

/// Identifies an observable action.
pub type ActionId = Id;

/// Identifies an intent.
pub type IntentId = Id;

/// How one identifier stands to another in the order of identifiers.
#[derive(Clone, Copy, Debug, PartialEq, Eq, Structural)]
pub enum Rank {
    /// The one comes before the other.
    Before,
    /// The two are the same identifier.
    Same,
    /// The one comes after the other.
    After,
}

/// The first `n` bytes of `a` and `b` are the same.
pub open spec fn agree_before(a: Id, b: Id, n: int) -> bool {
    forall|j: int| 0 <= j < n ==> a[j] == b[j]
}

/// The order of identifiers, byte by byte: `a` comes before `b` when, at the
/// first byte where they differ, `a` holds the smaller one.
pub open spec fn id_before(a: Id, b: Id) -> bool {
    exists|i: int| 0 <= i < 32 && #[trigger] agree_before(a, b, i) && a[i] < b[i]
}

/// How `a` stands to `b`.
pub open spec fn rank_of(a: Id, b: Id) -> Rank {
    if a == b {
        Rank::Same
    } else if id_before(a, b) {
        Rank::Before
    } else {
        Rank::After
    }
}

/// No identifier comes before itself.
pub proof fn lemma_before_irreflexive(a: Id)
    ensures
        !id_before(a, a),
{
}

/// The order is transitive.
pub proof fn lemma_before_transitive(a: Id, b: Id, c: Id)
    requires
        id_before(a, b),
        id_before(b, c),
    ensures
        id_before(a, c),
{
    let i = choose|i: int| 0 <= i < 32 && #[trigger] agree_before(a, b, i) && a[i] < b[i];
    let j = choose|j: int| 0 <= j < 32 && #[trigger] agree_before(b, c, j) && b[j] < c[j];
    let m = if i < j {
        i
    } else {
        j
    };
    assert(agree_before(a, c, m));
    assert(a[m] < c[m]);
}

/// Of two identifiers, at most one comes before the other.
pub proof fn lemma_before_asymmetric(a: Id, b: Id)
    requires
        id_before(a, b),
    ensures
        !id_before(b, a),
        a != b,
{
    if id_before(b, a) {
        lemma_before_transitive(a, b, a);
    }
    lemma_before_irreflexive(a);
}

/// Two identifiers that agree on their first `n` bytes are the same, or one
/// comes before the other.
proof fn lemma_total_from(a: Id, b: Id, n: int)
    requires
        0 <= n <= 32,
        agree_before(a, b, n),
    ensures
        a == b || id_before(a, b) || id_before(b, a),
    decreases 32 - n,
{
    if n == 32 {
        assert(a =~= b);
    } else if a[n] < b[n] {
    } else if b[n] < a[n] {
        assert(agree_before(b, a, n));
    } else {
        assert(agree_before(a, b, n + 1));
        lemma_total_from(a, b, n + 1);
    }
}

/// The order is total: two different identifiers are ordered one way or the
/// other.
pub proof fn lemma_before_total(a: Id, b: Id)
    ensures
        a == b || id_before(a, b) || id_before(b, a),
{
    assert(agree_before(a, b, 0));
    lemma_total_from(a, b, 0);
}

/// Two identifiers are the same token exactly when all their bytes agree.
pub fn same_id(a: &Id, b: &Id) -> (r: bool)
    ensures
        r == (*a == *b),
{
    let mut i: usize = 0;
    while i < 32
        invariant
            i <= 32,
            agree_before(*a, *b, i as int),
        decreases 32 - i,
    {
        if a[i] != b[i] {
            return false;
        }
        i += 1;
    }
    proof {
        assert(*a =~= *b);
    }
    true
}

/// Says how `a` stands to `b` in the order of identifiers.
pub fn rank_ids(a: &Id, b: &Id) -> (r: Rank)
    ensures
        r == rank_of(*a, *b),
        r == Rank::After <==> id_before(*b, *a),
{
    let mut i: usize = 0;
    while i < 32
        invariant
            i <= 32,
            agree_before(*a, *b, i as int),
        decreases 32 - i,
    {
        if a[i] < b[i] {
            proof {
                lemma_before_asymmetric(*a, *b);
            }
            return Rank::Before;
        }
        if a[i] > b[i] {
            proof {
                assert(agree_before(*b, *a, i as int));
                lemma_before_asymmetric(*b, *a);
            }
            return Rank::After;
        }
        i += 1;
    }
    proof {
        assert(*a =~= *b);
        lemma_before_irreflexive(*a);
    }
    Rank::Same
}

} // verus!
