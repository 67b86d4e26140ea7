//! The ordering that keys must obey, and the comparisons built on it.

use vstd::prelude::*;
use vstd::std_specs::cmp::{OrdSpec, PartialOrdSpec, PartialEqSpec};
use vstd::laws_cmp::obeys_cmp;
use vstd::laws_eq::obeys_concrete_eq;
use core::cmp::Ordering;

verus! {

/// `a` sorts strictly before `b`.
pub open spec fn lt<K: Ord>(a: K, b: K) -> bool {
    a.cmp_spec(&b) == Ordering::Less
}

/// `K::cmp` is a strict total order whose notion of equality is `==`.
pub open spec fn total_order<K: Ord>() -> bool {
    &&& K::obeys_cmp_spec()
    &&& forall|a: K, b: K| #[trigger] a.cmp_spec(&b) == Ordering::Equal <==> a == b
    &&& forall|a: K, b: K| #[trigger] a.cmp_spec(&b) == Ordering::Greater <==> lt(b, a)
    &&& forall|a: K, b: K, c: K| #[trigger] lt(a, b) && #[trigger] lt(b, c) ==> lt(a, c)
}

/// Cloning a `T` yields a value equal to the one cloned.
pub open spec fn faithful_clone<T: Clone>() -> bool {
    forall|a: T, b: T| #[trigger] cloned(a, b) ==> a == b
}

/// The outcome of comparing a probe against a stored key.
pub enum Rank {
    Below,
    Same,
    Above,
}

/// Three-way comparison of `a` against `b`.
pub fn rank<K: Ord>(a: &K, b: &K) -> (r: Rank)
    requires
        total_order::<K>(),
    ensures
        r is Below <==> lt(*a, *b),
        r is Same <==> *a == *b,
        r is Above <==> lt(*b, *a),
{
    match a.cmp(b) {
        Ordering::Less => Rank::Below,
        Ordering::Equal => Rank::Same,
        Ordering::Greater => Rank::Above,
    }
}

/// Exactly one of `a < b`, `a == b`, `b < a` holds.
pub proof fn lemma_trichotomy<K: Ord>(a: K, b: K)
    requires
        total_order::<K>(),
    ensures
        lt(a, b) || a == b || lt(b, a),
        !(lt(a, b) && a == b),
        !(lt(b, a) && a == b),
        !(lt(a, b) && lt(b, a)),
{
    let o = a.cmp_spec(&b);
    assert(o == Ordering::Less || o == Ordering::Equal || o == Ordering::Greater);
    let p = b.cmp_spec(&a);
    assert(p == Ordering::Less || p == Ordering::Equal || p == Ordering::Greater);
}

/// The laws that vstd states for `Ord`, with equality that coincides with
/// `==`, make a total order in the sense of this module.
pub proof fn lemma_total_order_from_laws<K: Ord>()
    requires
        obeys_cmp::<K>(),
        obeys_concrete_eq::<K>(),
    ensures
        total_order::<K>(),
{
    reveal(vstd::laws_cmp::obeys_cmp_partial_ord);
    reveal(vstd::laws_cmp::obeys_cmp_ord);
    reveal(vstd::laws_cmp::obeys_partial_cmp_spec_properties);
    reveal(vstd::laws_eq::obeys_concrete_eq);
    assert forall|a: K, b: K| #[trigger] a.cmp_spec(&b) == Ordering::Equal <==> a == b by {
        assert(a.partial_cmp_spec(&b) == Some(a.cmp_spec(&b)));
    }
    assert forall|a: K, b: K| #[trigger] a.cmp_spec(&b) == Ordering::Greater <==> lt(b, a) by {
        assert(a.partial_cmp_spec(&b) == Some(a.cmp_spec(&b)));
        assert(b.partial_cmp_spec(&a) == Some(b.cmp_spec(&a)));
    }
    assert forall|a: K, b: K, c: K| #[trigger] lt(a, b) && #[trigger] lt(b, c) implies lt(a, c) by {
        assert(a.partial_cmp_spec(&b) == Some(a.cmp_spec(&b)));
        assert(b.partial_cmp_spec(&c) == Some(b.cmp_spec(&c)));
        assert(a.partial_cmp_spec(&c) == Some(a.cmp_spec(&c)));
    }
}

/// Unsigned 64-bit keys are totally ordered and cloned faithfully.
pub proof fn lemma_u64_keys()
    ensures
        total_order::<u64>(),
        faithful_clone::<u64>(),
{
    broadcast use vstd::laws_cmp::group_laws_cmp;
    broadcast use vstd::laws_eq::group_laws_eq;
    lemma_total_order_from_laws::<u64>();
}

} // verus!
