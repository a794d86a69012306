//! The total order that keys must carry, stated once for the whole crate.

use core::cmp::Ordering;
use vstd::laws_cmp::obeys_cmp;
use vstd::laws_eq::obeys_concrete_eq;
use vstd::prelude::*;
use vstd::std_specs::cmp::{PartialEqSpec, PartialOrdSpec};

verus! {

/// `K`'s comparison operators form a total order whose equality is equality of values.
///
/// The integer types and the tuples of them carry such an order, as the lemmas of
/// `vstd::laws_cmp::group_laws_cmp` and `vstd::laws_eq::group_laws_eq` show.
pub open spec fn total_order<K: Ord>() -> bool {
    &&& obeys_cmp::<K>()
    &&& obeys_concrete_eq::<K>()
}

/// `a` is strictly smaller than `b`.
pub open spec fn precedes<K: Ord>(a: K, b: K) -> bool {
    a.partial_cmp_spec(&b) == Some(Ordering::Less)
}

/// Of two keys exactly one holds: they are equal, the first precedes the second, or the
/// second precedes the first.
pub proof fn lemma_trichotomy<K: Ord>(a: K, b: K)
    requires
        total_order::<K>(),
    ensures
        a == b || precedes(a, b) || precedes(b, a),
        !(a == b && precedes(a, b)),
        !(a == b && precedes(b, a)),
        !(precedes(a, b) && precedes(b, a)),
{
    reveal(vstd::laws_cmp::obeys_cmp_partial_ord);
    reveal(vstd::laws_cmp::obeys_cmp_ord);
    reveal(vstd::laws_cmp::obeys_partial_cmp_spec_properties);
    reveal(obeys_concrete_eq);
    reveal(vstd::laws_eq::obeys_eq_spec_properties);
}

/// The order is transitive.
pub proof fn lemma_transitive<K: Ord>(a: K, b: K, c: K)
    requires
        total_order::<K>(),
        precedes(a, b),
        precedes(b, c),
    ensures
        precedes(a, c),
{
    reveal(vstd::laws_cmp::obeys_partial_cmp_spec_properties);
}

/// Whether two keys are equal.
pub fn same_key<K: Ord>(a: &K, b: &K) -> (r: bool)
    requires
        total_order::<K>(),
    ensures
        r == (*a == *b),
{
    proof {
        reveal(obeys_concrete_eq);
    }
    a == b
}

/// Whether `a` is equal to `b` or precedes it.
pub fn at_most<K: Ord>(a: &K, b: &K) -> (r: bool)
    requires
        total_order::<K>(),
    ensures
        r == (*a == *b || precedes(*a, *b)),
{
    proof {
        reveal(vstd::laws_cmp::obeys_cmp_partial_ord);
        reveal(vstd::laws_cmp::obeys_partial_cmp_spec_properties);
        reveal(obeys_concrete_eq);
    }
    *a <= *b
}

} // verus!
