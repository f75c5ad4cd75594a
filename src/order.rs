//! What the tree asks of the comparison of its keys.

use core::cmp::Ordering;
use vstd::prelude::*;
use vstd::std_specs::cmp::PartialOrdSpec;

verus! {

/// `a` compares strictly less than `b`.
pub open spec fn less_than<T: PartialOrd>(a: T, b: T) -> bool {
    a.partial_cmp_spec(&b) == Some(Ordering::Less)
}

/// `partial_cmp` on `T` is a strict total order whose equal case is identity:
/// every pair compares, `Equal` holds of a value and itself alone, `Less` and
/// `Greater` mirror each other, and `Less` is transitive.
pub open spec fn is_total_order<T: PartialOrd>() -> bool {
    &&& T::obeys_partial_cmp_spec()
    &&& forall|a: T, b: T| #[trigger] a.partial_cmp_spec(&b) is Some
    &&& forall|a: T, b: T|
        #[trigger] a.partial_cmp_spec(&b) == Some(Ordering::Equal) <==> a == b
    &&& forall|a: T, b: T|
        #![trigger a.partial_cmp_spec(&b), b.partial_cmp_spec(&a)]
        a.partial_cmp_spec(&b) == Some(Ordering::Less) <==> b.partial_cmp_spec(&a) == Some(
            Ordering::Greater,
        )
    &&& forall|a: T, b: T, c: T|
        #[trigger] less_than(a, b) && #[trigger] less_than(b, c) ==> less_than(a, c)
}

/// No value is less than itself.
pub proof fn lemma_irreflexive<T: PartialOrd>(a: T)
    requires
        is_total_order::<T>(),
    ensures
        !less_than(a, a),
{
    assert(a.partial_cmp_spec(&a) == Some(Ordering::Equal));
}

/// Two values never compare less in both directions, nor are they equal
/// when one is less than the other.
pub proof fn lemma_asymmetric<T: PartialOrd>(a: T, b: T)
    requires
        is_total_order::<T>(),
        less_than(a, b),
    ensures
        !less_than(b, a),
        a != b,
{
    lemma_irreflexive(a);
    if less_than(b, a) {
        assert(less_than(a, a));
    }
}

} // verus!
