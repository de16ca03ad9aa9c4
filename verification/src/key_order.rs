//! The fixed comparison by which keys are ordered.

use core::cmp::Ordering;
use vstd::laws_cmp::{obeys_cmp, obeys_cmp_ord, obeys_cmp_partial_ord, obeys_partial_cmp_spec_properties};
use vstd::laws_eq::obeys_concrete_eq;
use vstd::prelude::*;
use vstd::std_specs::cmp::{OrdSpec, PartialEqSpec, PartialOrdSpec};

verus! {

/// The comparison of `K` is a total order whose notion of equality is
/// equality of values.
pub open spec fn total_order<K: Ord>() -> bool {
    &&& obeys_cmp::<K>()
    &&& obeys_concrete_eq::<K>()
}

/// `a` sorts strictly before `b`.
pub open spec fn key_lt<K: Ord>(a: K, b: K) -> bool {
    a.cmp_spec(&b) == Ordering::Less
}

/// No key sorts before itself.
pub proof fn lemma_lt_irreflexive<K: Ord>(a: K)
    requires
        total_order::<K>(),
    ensures
        !key_lt(a, a),
{
    reveal(obeys_concrete_eq);
    reveal(obeys_cmp_partial_ord);
    reveal(obeys_cmp_ord);
    assert(a.eq_spec(&a));
    assert(a.partial_cmp_spec(&a) == Some(Ordering::Equal));
}

/// Sorting before is transitive.
pub proof fn lemma_lt_transitive<K: Ord>(a: K, b: K, c: K)
    requires
        total_order::<K>(),
        key_lt(a, b),
        key_lt(b, c),
    ensures
        key_lt(a, c),
{
    reveal(obeys_partial_cmp_spec_properties);
    reveal(obeys_cmp_ord);
    assert(a.partial_cmp_spec(&b) == Some(Ordering::Less));
    assert(b.partial_cmp_spec(&c) == Some(Ordering::Less));
    assert(a.partial_cmp_spec(&c) == Some(Ordering::Less));
}

/// Of two different keys one sorts before the other.
pub proof fn lemma_lt_connected<K: Ord>(a: K, b: K)
    requires
        total_order::<K>(),
        a != b,
    ensures
        key_lt(a, b) || key_lt(b, a),
{
    reveal(obeys_concrete_eq);
    reveal(obeys_partial_cmp_spec_properties);
    reveal(obeys_cmp_partial_ord);
    reveal(obeys_cmp_ord);
    assert(!a.eq_spec(&b));
    assert(a.partial_cmp_spec(&b) == Some(a.cmp_spec(&b)));
    assert(b.partial_cmp_spec(&a) == Some(b.cmp_spec(&a)));
    if a.cmp_spec(&b) == Ordering::Greater {
        assert(a.partial_cmp_spec(&b) == Some(Ordering::Greater));
        assert(b.partial_cmp_spec(&a) == Some(Ordering::Less));
    }
}

/// Decides whether `a` sorts strictly before `b`.
pub fn less<K: Ord>(a: &K, b: &K) -> (r: bool)
    requires
        total_order::<K>(),
    ensures
        r == key_lt(*a, *b),
{
    proof {
        reveal(obeys_cmp_partial_ord);
        reveal(obeys_cmp_ord);
    }
    *a < *b
}

} // verus!
