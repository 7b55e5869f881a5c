//! The order on keys.
//!
//! Keys are compared through `Ord`. Everything in this crate that depends on
//! the order assumes that it is a total order whose `Equal` coincides with
//! equality of values; `lawful_order` states that assumption once.
use core::cmp::Ordering;
use vstd::laws_cmp::obeys_cmp;
use vstd::laws_eq::obeys_concrete_eq;
use vstd::prelude::*;
use vstd::std_specs::cmp::OrdSpec;

verus! {

/// The comparison of `K` is a total order, and two keys compare equal exactly
/// when they are the same value.
pub open spec fn lawful_order<K: Ord>() -> bool {
    obeys_cmp::<K>() && obeys_concrete_eq::<K>()
}

/// `a` is strictly smaller than `b`.
pub open spec fn below<K: Ord>(a: K, b: K) -> bool {
    a.cmp_spec(&b) == Ordering::Less
}

/// `a` is smaller than or equal to `b`.
pub open spec fn at_most<K: Ord>(a: K, b: K) -> bool {
    !below(b, a)
}

/// How one key stands to another.
#[derive(Clone, Copy, PartialEq, Eq, Structural, Debug)]
pub enum Rank {
    Before,
    Same,
    After,
}

/// The laws of a strict total order, for `below`.
pub proof fn lemma_order_laws<K: Ord>()
    requires
        lawful_order::<K>(),
    ensures
        forall|a: K| !#[trigger] below(a, a),
        forall|a: K, b: K| #[trigger] below(a, b) ==> !below(b, a),
        forall|a: K, b: K| #[trigger] below(a, b) || a == b || below(b, a),
        forall|a: K, b: K, c: K| #[trigger] below(a, b) && #[trigger] below(b, c) ==> below(a, c),
{
    reveal(vstd::laws_cmp::obeys_cmp_ord);
    reveal(vstd::laws_cmp::obeys_cmp_partial_ord);
    reveal(vstd::laws_cmp::obeys_partial_cmp_spec_properties);
    reveal(vstd::laws_eq::obeys_concrete_eq);
    reveal(vstd::laws_eq::obeys_eq_spec_properties);
    assert forall|a: K, b: K| #[trigger] below(a, b) || a == b || below(b, a) by {
        match a.cmp_spec(&b) {
            Ordering::Less => {},
            Ordering::Equal => {},
            Ordering::Greater => {},
        }
    }
}

/// Compares two keys.
pub fn compare<K: Ord>(a: &K, b: &K) -> (r: Rank)
    requires
        lawful_order::<K>(),
    ensures
        r == Rank::Before <==> below(*a, *b),
        r == Rank::Same <==> *a == *b,
        r == Rank::After <==> below(*b, *a),
{
    proof {
        lemma_order_laws::<K>();
        reveal(vstd::laws_cmp::obeys_cmp_ord);
        reveal(vstd::laws_cmp::obeys_cmp_partial_ord);
        reveal(vstd::laws_cmp::obeys_partial_cmp_spec_properties);
        reveal(vstd::laws_eq::obeys_concrete_eq);
    }
    match a.cmp(b) {
        Ordering::Less => Rank::Before,
        Ordering::Equal => Rank::Same,
        Ordering::Greater => Rank::After,
    }
}

/// The ordering of two keys, as the sorting routines of the standard library
/// ask for it.
pub fn key_ordering<K: Ord>(a: &K, b: &K) -> (o: Ordering)
    requires
        lawful_order::<K>(),
    ensures
        o is Less <==> below(*a, *b),
        o is Equal <==> *a == *b,
        o is Greater <==> below(*b, *a),
{
    match compare(a, b) {
        Rank::Before => Ordering::Less,
        Rank::Same => Ordering::Equal,
        Rank::After => Ordering::Greater,
    }
}

/// Whether `a` is strictly smaller than `b`.
pub fn is_below<K: Ord>(a: &K, b: &K) -> (r: bool)
    requires
        lawful_order::<K>(),
    ensures
        r == below(*a, *b),
{
    match compare(a, b) {
        Rank::Before => true,
        _ => false,
    }
}

/// Whether `a` is smaller than or equal to `b`.
pub fn is_at_most<K: Ord>(a: &K, b: &K) -> (r: bool)
    requires
        lawful_order::<K>(),
    ensures
        r == at_most(*a, *b),
{
    match compare(b, a) {
        Rank::Before => false,
        _ => true,
    }
}

} // verus!
