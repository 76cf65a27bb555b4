//! The ordering assumptions the merge engine makes of its item type.

use core::cmp::Ordering;
use vstd::laws_cmp::obeys_cmp;
use vstd::laws_eq::obeys_concrete_eq;
use vstd::prelude::*;
use vstd::std_specs::cmp::{OrdSpec, PartialEqSpec, PartialOrdSpec};

verus! {

/// The item type's `Ord` implementation is a total order whose `Equal`
/// answers coincide with structural equality. Every contract of the merge
/// engine is stated relative to this assumption; for the integer types it
/// holds by `vstd`'s broadcast lemmas.
pub open spec fn total_order<T: Ord>() -> bool {
    &&& obeys_cmp::<T>()
    &&& obeys_concrete_eq::<T>()
}

/// `a` compares strictly below `b`.
pub open spec fn lt_spec<T: Ord>(a: T, b: T) -> bool {
    a.cmp_spec(&b) == Ordering::Less
}

/// The facts a total order gives about `cmp_spec`: equality means `Equal`,
/// `Less` and `Greater` mirror each other, and `Less` is transitive.
pub proof fn lemma_total_order<T: Ord>()
    requires
        total_order::<T>(),
    ensures
        T::obeys_cmp_spec(),
        forall|a: T, b: T| (#[trigger] a.cmp_spec(&b)) == Ordering::Equal <==> a == b,
        forall|a: T, b: T|
            (#[trigger] a.cmp_spec(&b)) == Ordering::Less <==> b.cmp_spec(&a)
                == Ordering::Greater,
        forall|a: T, b: T, c: T|
            #[trigger] lt_spec(a, b) && #[trigger] lt_spec(b, c) ==> lt_spec(a, c),
{
    reveal(vstd::laws_cmp::obeys_cmp_partial_ord);
    reveal(vstd::laws_cmp::obeys_cmp_ord);
    reveal(vstd::laws_cmp::obeys_partial_cmp_spec_properties);
    reveal(vstd::laws_eq::obeys_concrete_eq);
    assert forall|a: T, b: T| (#[trigger] a.cmp_spec(&b)) == Ordering::Equal <==> a == b by {
        assert(a.partial_cmp_spec(&b) == Some(a.cmp_spec(&b)));
    }
    assert forall|a: T, b: T|
        (#[trigger] a.cmp_spec(&b)) == Ordering::Less <==> b.cmp_spec(&a)
            == Ordering::Greater by {
        assert(a.partial_cmp_spec(&b) == Some(a.cmp_spec(&b)));
        assert(b.partial_cmp_spec(&a) == Some(b.cmp_spec(&a)));
    }
    assert forall|a: T, b: T, c: T|
        #[trigger] lt_spec(a, b) && #[trigger] lt_spec(b, c) implies lt_spec(a, c) by {
        assert(a.partial_cmp_spec(&b) == Some(a.cmp_spec(&b)));
        assert(b.partial_cmp_spec(&c) == Some(b.cmp_spec(&c)));
        assert(a.partial_cmp_spec(&c) == Some(a.cmp_spec(&c)));
    }
}

} // verus!
