//! Stretches of a sequence: what it means that one ascends, and that a
//! sequence was rearranged within one and left alone outside it.

use vstd::prelude::*;
use vstd::seq_lib::{lemma_multiset_commutative, to_multiset_contains};

use crate::order::{at_most, sorted};
use crate::sort::exchange::{lemma_swapped, swapped};

verus! {

/// The elements from `low` to `high`, both included, ascend.
pub open spec fn sorted_between<T: Ord>(items: Seq<T>, low: int, high: int) -> bool {
    forall|i: int, j: int|
        low <= i <= j <= high ==> at_most(#[trigger] items[i], #[trigger] items[j])
}

/// `after` holds from `low` to `high`, both included, the elements that
/// `before` holds there, each as often, and is `before` everywhere else.
pub open spec fn rearranged_between<T>(before: Seq<T>, after: Seq<T>, low: int, high: int) -> bool {
    &&& after.len() == before.len()
    &&& 0 <= low <= high + 1 <= before.len()
    &&& forall|k: int|
        (0 <= k < low || high < k < before.len()) ==> #[trigger] after[k] == before[k]
    &&& after.subrange(low, high + 1).to_multiset() == before.subrange(low, high + 1).to_multiset()
}

/// A rearrangement within a stretch is one within every wider stretch.
pub proof fn lemma_rearranged_wider<T>(
    before: Seq<T>,
    after: Seq<T>,
    low: int,
    high: int,
    lower: int,
    higher: int,
)
    requires
        rearranged_between(before, after, low, high),
        0 <= lower <= low,
        high <= higher < before.len(),
    ensures
        rearranged_between(before, after, lower, higher),
{
    let front_before = before.subrange(lower, low);
    let front_after = after.subrange(lower, low);
    let mid_before = before.subrange(low, high + 1);
    let mid_after = after.subrange(low, high + 1);
    let back_before = before.subrange(high + 1, higher + 1);
    let back_after = after.subrange(high + 1, higher + 1);
    assert(front_before =~= front_after);
    assert(back_before =~= back_after);
    assert(before.subrange(lower, higher + 1) =~= (front_before + mid_before) + back_before);
    assert(after.subrange(lower, higher + 1) =~= (front_after + mid_after) + back_after);
    lemma_multiset_commutative(front_before, mid_before);
    lemma_multiset_commutative(front_before + mid_before, back_before);
    lemma_multiset_commutative(front_after, mid_after);
    lemma_multiset_commutative(front_after + mid_after, back_after);
}

/// A rearrangement within a stretch keeps the elements of the whole
/// sequence, each as often as it was there.
pub proof fn lemma_rearranged_whole<T>(before: Seq<T>, after: Seq<T>, low: int, high: int)
    requires
        rearranged_between(before, after, low, high),
    ensures
        after.to_multiset() == before.to_multiset(),
{
    if before.len() > 0 {
        if low <= high {
            lemma_rearranged_wider(before, after, low, high, 0, before.len() - 1);
            assert(before.subrange(0, before.len() as int) =~= before);
            assert(after.subrange(0, after.len() as int) =~= after);
        } else {
            assert(after =~= before);
        }
    } else {
        assert(after =~= before);
    }
}

/// Every element of a rearranged stretch was in the stretch before.
pub proof fn lemma_rearranged_member<T>(
    before: Seq<T>,
    after: Seq<T>,
    low: int,
    high: int,
    k: int,
) -> (source: int)
    requires
        rearranged_between(before, after, low, high),
        low <= k <= high,
    ensures
        low <= source <= high,
        before[source] == after[k],
{
    let mid_before = before.subrange(low, high + 1);
    let mid_after = after.subrange(low, high + 1);
    assert(mid_after[k - low] == after[k]);
    assert(mid_after.contains(after[k]));
    to_multiset_contains(mid_after, after[k]);
    to_multiset_contains(mid_before, after[k]);
    assert(mid_before.contains(after[k]));
    let at = choose|at: int| 0 <= at < mid_before.len() && mid_before[at] == after[k];
    low + at
}

/// One rearrangement within a stretch after another is one.
pub proof fn lemma_rearranged_twice<T>(
    before: Seq<T>,
    between: Seq<T>,
    after: Seq<T>,
    low: int,
    high: int,
)
    requires
        rearranged_between(before, between, low, high),
        rearranged_between(between, after, low, high),
    ensures
        rearranged_between(before, after, low, high),
{
}

/// A sequence is a rearrangement of itself.
pub proof fn lemma_rearranged_same<T>(items: Seq<T>, low: int, high: int)
    requires
        0 <= low <= high + 1 <= items.len(),
    ensures
        rearranged_between(items, items, low, high),
{
}

/// An exchange of two elements of a stretch rearranges within it.
pub proof fn lemma_swapped_between<T>(items: Seq<T>, low: int, high: int, a: int, b: int)
    requires
        0 <= low <= a <= high < items.len(),
        low <= b <= high,
    ensures
        rearranged_between(items, swapped(items, a, b), low, high),
{
    let mid = items.subrange(low, high + 1);
    lemma_swapped(mid, a - low, b - low);
    assert(swapped(items, a, b).subrange(low, high + 1) =~= swapped(mid, a - low, b - low));
}

/// A sequence that ascends from its first to its last element is sorted.
pub proof fn lemma_sorted_whole<T: Ord>(items: Seq<T>)
    requires
        sorted_between(items, 0, items.len() - 1),
    ensures
        sorted(items),
{
}

} // verus!
