//! Exchanging two elements of a vector in place.

use vstd::prelude::*;
use vstd::seq_lib::to_multiset_update;

verus! {

/// `items` with the elements at `a` and `b` exchanged.
pub open spec fn swapped<T>(items: Seq<T>, a: int, b: int) -> Seq<T> {
    items.update(a, items[b]).update(b, items[a])
}

/// An exchange keeps the elements, each as often as it was there.
pub proof fn lemma_swapped<T>(items: Seq<T>, a: int, b: int)
    requires
        0 <= a < items.len(),
        0 <= b < items.len(),
    ensures
        swapped(items, a, b).to_multiset() == items.to_multiset(),
        swapped(items, a, b).len() == items.len(),
{
    let half = items.update(a, items[b]);
    to_multiset_update(items, a, items[b]);
    to_multiset_update(half, b, items[a]);
    broadcast use vstd::multiset::group_multiset_axioms;
    broadcast use vstd::seq_lib::to_multiset_contains;
    assert(items.contains(items[a]));
    assert(items.contains(items[b]));
    assert(swapped(items, a, b).to_multiset() =~= items.to_multiset());
}

/// `<[T]>::swap` of the standard library, on a vector: the two elements at
/// `a` and `b` change places and every other element stays. The standard
/// library panics on an index out of bounds, so both have to be within.
#[verifier::external_body]
pub(crate) fn swap<T>(items: &mut Vec<T>, a: usize, b: usize)
    requires
        a < old(items)@.len(),
        b < old(items)@.len(),
    ensures
        final(items)@ == swapped(old(items)@, a as int, b as int),
{
    items.swap(a, b);
}

} // verus!
