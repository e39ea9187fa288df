//! The order of keys.

use std::cmp::Ordering;
use vstd::prelude::*;

verus! {

/// `K`'s comparison operators agree with each other and form a total order.
pub open spec fn total_order<K: Ord>() -> bool {
    vstd::laws_cmp::obeys_cmp::<K>()
}

/// `a` comes strictly before `b`.
pub open spec fn lt<K: Ord>(a: K, b: K) -> bool {
    vstd::std_specs::cmp::PartialOrdSpec::partial_cmp_spec(&a, &b) == Some(Ordering::Less)
}

/// Neither of `a` and `b` comes before the other.
pub open spec fn same<K: Ord>(a: K, b: K) -> bool {
    !lt(a, b) && !lt(b, a)
}

/// A clone of a key stands at the same place in the order as the key itself.
pub open spec fn clones_compare_equal<K: Ord + Clone>() -> bool {
    forall|a: K, b: K| #[trigger] cloned(a, b) ==> same(a, b)
}

/// The order of the keys is irreflexive, transitive, and total up to `same`.
pub proof fn lemma_order<K: Ord>()
    requires
        total_order::<K>(),
    ensures
        forall|a: K| !(#[trigger] lt(a, a)),
        forall|a: K, b: K, c: K| #[trigger] lt(a, b) && #[trigger] lt(b, c) ==> lt(a, c),
        forall|a: K, b: K, c: K| #[trigger] lt(a, b) && !(#[trigger] lt(c, b)) ==> lt(a, c),
        forall|a: K, b: K, c: K| #[trigger] lt(b, a) && !(#[trigger] lt(b, c)) ==> lt(c, a),
{
    reveal(vstd::laws_cmp::obeys_partial_cmp_spec_properties);
    reveal(vstd::laws_cmp::obeys_cmp_partial_ord);
    reveal(vstd::laws_cmp::obeys_cmp_ord);
    reveal(vstd::laws_eq::obeys_eq_spec_properties);
}

/// Addresses are ordered as numbers are, and their clones are the same addresses.
pub proof fn lemma_u64_keys()
    ensures
        total_order::<u64>(),
        clones_compare_equal::<u64>(),
        forall|a: u64, b: u64| #[trigger] lt(a, b) <==> a < b,
{
    broadcast use vstd::laws_cmp::group_laws_cmp;
}

/// Whether `a` comes strictly before `b`.
pub(crate) fn is_before<K: Ord>(a: &K, b: &K) -> (r: bool)
    requires
        total_order::<K>(),
    ensures
        r == lt(*a, *b),
{
    proof {
        reveal(vstd::laws_cmp::obeys_cmp_partial_ord);
    }
    *a < *b
}

/// Compares two keys.
pub(crate) fn compare<K: Ord>(a: &K, b: &K) -> (ordering: Ordering)
    requires
        total_order::<K>(),
    ensures
        ordering == Ordering::Less <==> lt(*a, *b),
        ordering == Ordering::Greater <==> lt(*b, *a),
{
    proof {
        reveal(vstd::laws_cmp::obeys_cmp_ord);
        reveal(vstd::laws_cmp::obeys_partial_cmp_spec_properties);
    }
    a.cmp(b)
}

/// The greater of two keys, `b` where neither comes before the other.
pub(crate) fn greater<K: Ord>(a: K, b: K) -> (r: K)
    requires
        total_order::<K>(),
    ensures
        r == if lt(b, a) { a } else { b },
{
    proof {
        reveal(vstd::laws_cmp::obeys_cmp_ord);
    }
    std::cmp::Ord::max(a, b)
}

} // verus!
