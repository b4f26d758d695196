//! Sorting vectors of integer tuples with the standard library's sort.
use vstd::prelude::*;
use vstd::std_specs::cmp::OrdSpec;
use core::cmp::Ordering;
use crate::triples::{triple_le, Triple};
use vstd::relations::{sorted_by, total_ordering};
use vstd::seq_lib::lemma_sorted_unique;

verus! {

/// `a` comes no later than `b` in `T`'s total order.
pub open spec fn order_le<T: Ord>(a: T, b: T) -> bool {
    a.cmp_spec(&b) != Ordering::Greater
}

/// `T`'s comparison follows its specification.
pub open spec fn obeys_order<T: Ord>() -> bool {
    T::obeys_cmp_spec()
}

/// `v` is in ascending order by `T`'s total order.
pub open spec fn ascending<T: Ord>(v: Seq<T>) -> bool {
    forall|i: int, j: int| 0 <= i < j < v.len() ==> order_le(#[trigger] v[i], #[trigger] v[j])
}

/// `<[T]>::sort_unstable`: the same elements, in ascending order. Only for
/// element types whose `Ord` follows its specification, a total order that
/// does not panic (integers and tuples of integers), where std documents
/// neither a panic nor an unsorted result.
#[verifier::external_body]
pub fn sort_unstable<T: Ord>(v: &mut Vec<T>)
    requires
        obeys_order::<T>(),
    ensures
        final(v)@.to_multiset() == old(v)@.to_multiset(),
        final(v)@.len() == old(v)@.len(),
        ascending(final(v)@),
{
    v.sort_unstable()
}

/// On triples of integers the order is the lexicographic one.
pub proof fn lemma_triple_order(a: Triple, b: Triple)
    ensures
        obeys_order::<Triple>(),
        order_le(a, b) <==> triple_le(a, b),
{
}

/// Pairs of integers follow their specified order.
pub proof fn lemma_entry_obeys()
    ensures
        obeys_order::<(u128, u32)>(),
{
}

/// Two ascending sequences with the same elements are equal, for a total
/// order.
pub proof fn lemma_ascending_unique<T: Ord>(x: Seq<T>, y: Seq<T>)
    requires
        ascending(x),
        ascending(y),
        x.to_multiset() == y.to_multiset(),
        total_ordering(|a: T, b: T| order_le(a, b)),
    ensures
        x == y,
{
    let leq = |a: T, b: T| order_le(a, b);
    assert(sorted_by(x, leq));
    assert(sorted_by(y, leq));
    lemma_sorted_unique(x, y, leq);
}

/// Triples of integers follow their specified order.
pub proof fn lemma_pair_entry_obeys()
    ensures
        obeys_order::<(u32, u32, u64)>(),
        total_ordering(|a: (u32, u32, u64), b: (u32, u32, u64)| order_le(a, b)),
{
    let leq = |a: (u32, u32, u64), b: (u32, u32, u64)| order_le(a, b);
    assert forall|x: (u32, u32, u64)| #[trigger] leq(x, x) by {}
    assert forall|x: (u32, u32, u64), y: (u32, u32, u64)| #[trigger] leq(x, y) && #[trigger] leq(y, x) implies x == y by {}
    assert forall|x: (u32, u32, u64), y: (u32, u32, u64), z: (u32, u32, u64)| #[trigger] leq(x, y) && #[trigger] leq(y, z) implies leq(x, z) by {}
    assert forall|x: (u32, u32, u64), y: (u32, u32, u64)| #[trigger] leq(x, y) || #[trigger] leq(y, x) by {}
}

/// Encoded 5-tuples follow their specified order, a total order.
pub proof fn lemma_encoded_obeys()
    ensures
        obeys_order::<(u32, u32, u64, u64, u64)>(),
        total_ordering(|a: (u32, u32, u64, u64, u64), b: (u32, u32, u64, u64, u64)| order_le(a, b)),
{
    let leq = |a: (u32, u32, u64, u64, u64), b: (u32, u32, u64, u64, u64)| order_le(a, b);
    assert forall|x: (u32, u32, u64, u64, u64)| #[trigger] leq(x, x) by {}
    assert forall|x: (u32, u32, u64, u64, u64), y: (u32, u32, u64, u64, u64)| #[trigger] leq(x, y) && #[trigger] leq(y, x) implies x == y by {}
    assert forall|x: (u32, u32, u64, u64, u64), y: (u32, u32, u64, u64, u64), z: (u32, u32, u64, u64, u64)| #[trigger] leq(x, y) && #[trigger] leq(y, z) implies leq(x, z) by {}
    assert forall|x: (u32, u32, u64, u64, u64), y: (u32, u32, u64, u64, u64)| #[trigger] leq(x, y) || #[trigger] leq(y, x) by {}
}

/// Sidecar index tuples follow their specified order, the lexicographic one,
/// a total order.
pub proof fn lemma_idx_tuple_obeys()
    ensures
        obeys_order::<(u64, u32, u64, u64)>(),
        total_ordering(|a: (u64, u32, u64, u64), b: (u64, u32, u64, u64)| order_le(a, b)),
        forall|a: (u64, u32, u64, u64), b: (u64, u32, u64, u64)| #[trigger] order_le(a, b) <==>
            (a.0 < b.0 || (a.0 == b.0 && (a.1 < b.1 || (a.1 == b.1 && (a.2 < b.2 || (a.2 == b.2 && a.3 <= b.3)))))),
{
    let leq = |a: (u64, u32, u64, u64), b: (u64, u32, u64, u64)| order_le(a, b);
    assert forall|x: (u64, u32, u64, u64)| #[trigger] leq(x, x) by {}
    assert forall|x: (u64, u32, u64, u64), y: (u64, u32, u64, u64)| #[trigger] leq(x, y) && #[trigger] leq(y, x) implies x == y by {}
    assert forall|x: (u64, u32, u64, u64), y: (u64, u32, u64, u64), z: (u64, u32, u64, u64)| #[trigger] leq(x, y) && #[trigger] leq(y, z) implies leq(x, z) by {}
    assert forall|x: (u64, u32, u64, u64), y: (u64, u32, u64, u64)| #[trigger] leq(x, y) || #[trigger] leq(y, x) by {}
}

} // verus!
