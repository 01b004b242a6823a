//! The ordering that the ordered trees rely on.
//!
//! `Ord` promises a total order whose `Equal` agrees with `==`. The predicate
//! `total_order` states that promise for a type, and `lemma_total_order` turns
//! it into the facts that the tree proofs use.

use core::cmp::Ordering;
use vstd::laws_cmp::*;
use vstd::laws_eq::*;
use vstd::prelude::*;
use vstd::std_specs::cmp::{OrdSpec, PartialOrdSpec};

verus! {

/// `T::cmp` is a total order whose `Equal` coincides with equality.
pub open spec fn total_order<T: Ord>() -> bool {
    &&& obeys_cmp::<T>()
    &&& obeys_concrete_eq::<T>()
}

/// `a` comes strictly before `b`.
pub open spec fn lt<T: Ord>(a: T, b: T) -> bool {
    a.cmp_spec(&b) == Ordering::Less
}

/// `a` and `b` compare as equal.
pub open spec fn ord_eq<T: Ord>(a: T, b: T) -> bool {
    a.cmp_spec(&b) == Ordering::Equal
}

/// `a` comes strictly after `b`.
pub open spec fn ord_gt<T: Ord>(a: T, b: T) -> bool {
    a.cmp_spec(&b) == Ordering::Greater
}

/// The laws of a total order, stated over `lt`, `ord_eq` and `ord_gt`.
pub proof fn lemma_total_order<T: Ord>()
    requires
        total_order::<T>(),
    ensures
        T::obeys_cmp_spec(),
        forall|a: T, b: T| #[trigger] ord_eq(a, b) <==> a == b,
        forall|a: T, b: T| #[trigger] ord_gt(a, b) <==> lt(b, a),
        forall|a: T, b: T| #[trigger] lt(a, b) ==> !ord_eq(a, b) && !ord_gt(a, b),
        forall|a: T, b: T| lt(a, b) || ord_eq(a, b) || ord_gt(a, b),
        forall|a: T| !lt(a, a),
        forall|a: T, b: T| #[trigger] lt(a, b) ==> !lt(b, a),
        forall|a: T, b: T, c: T| #[trigger] lt(a, b) && #[trigger] lt(b, c) ==> lt(a, c),
{
    reveal(obeys_cmp_partial_ord);
    reveal(obeys_cmp_ord);
    reveal(obeys_partial_cmp_spec_properties);
    reveal(obeys_concrete_eq);
    assert forall|a: T, b: T| #[trigger] ord_eq(a, b) <==> a == b by {
        assert(a.partial_cmp_spec(&b) == Some(a.cmp_spec(&b)));
    }
    assert forall|a: T, b: T| #[trigger] ord_gt(a, b) <==> lt(b, a) by {
        assert(a.partial_cmp_spec(&b) == Some(a.cmp_spec(&b)));
        assert(b.partial_cmp_spec(&a) == Some(b.cmp_spec(&a)));
    }
    assert forall|a: T| !lt(a, a) by {
        assert(a.partial_cmp_spec(&a) == Some(a.cmp_spec(&a)));
        assert(a.cmp_spec(&a) == Ordering::Equal);
    }
    assert forall|a: T, b: T| #[trigger] lt(a, b) implies !lt(b, a) by {
        assert(a.partial_cmp_spec(&b) == Some(a.cmp_spec(&b)));
        assert(b.partial_cmp_spec(&a) == Some(b.cmp_spec(&a)));
    }
    assert forall|a: T, b: T, c: T| #[trigger] lt(a, b) && #[trigger] lt(b, c) implies lt(a, c) by {
        assert(a.partial_cmp_spec(&b) == Some(a.cmp_spec(&b)));
        assert(b.partial_cmp_spec(&c) == Some(b.cmp_spec(&c)));
        assert(a.partial_cmp_spec(&c) == Some(a.cmp_spec(&c)));
    }
}

/// Every machine integer type used by the tests obeys the promise of `Ord`.
pub proof fn lemma_i32_total_order()
    ensures
        total_order::<i32>(),
{
    broadcast use vstd::laws_cmp::group_laws_cmp, vstd::laws_eq::group_laws_eq;
}

} // verus!
