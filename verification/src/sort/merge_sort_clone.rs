//! Merge sort on copies: a stretch is split in two halves, each half is
//! sorted into a vector of its own, and the two are merged into a third.

use vstd::pervasive::cloned;
use vstd::prelude::*;
use vstd::seq_lib::{lemma_multiset_commutative, to_multiset_build};

use crate::order::{at_most, lemma_total, less, sorted, total_order};

verus! {

/// A copy of a value of `T` made by `clone` is that value again.
pub open spec fn faithful_clone<T: Clone>() -> bool {
    forall|source: T, copy: T| #[trigger] cloned(source, copy) ==> copy == source
}

/// The elements of `array` in ascending order.
pub fn sort<T: Ord + Clone>(array: Vec<T>) -> (ordered: Vec<T>)
    requires
        total_order::<T>(),
        faithful_clone::<T>(),
    ensures
        sorted(ordered@),
        ordered@.to_multiset() == array@.to_multiset(),
        ordered@.len() == array@.len(),
{
    sort_slice(array.as_slice())
}

/// The elements of `array` in ascending order, in a vector of their own.
fn sort_slice<T: Ord + Clone>(array: &[T]) -> (ordered: Vec<T>)
    requires
        total_order::<T>(),
        faithful_clone::<T>(),
    ensures
        sorted(ordered@),
        ordered@.to_multiset() == array@.to_multiset(),
        ordered@.len() == array@.len(),
    decreases array@.len(),
{
    if array.len() == 0 || array.len() == 1 {
        proof {
            if array@.len() == 1 {
                lemma_total(array@[0], array@[0]);
            }
        }
        return copy_of(array);
    }
    let middle = array.len() / 2;
    let (first, second) = array.split_at(middle);
    let sorted_first_part = sort_slice(first);
    let sorted_second_part = sort_slice(second);
    proof {
        assert(array@ =~= first@ + second@);
        lemma_multiset_commutative(first@, second@);
    }
    merge_sorted(sorted_first_part, sorted_second_part)
}

/// A vector of copies of the elements of `array`, in their order.
fn copy_of<T: Clone>(array: &[T]) -> (copy: Vec<T>)
    requires
        faithful_clone::<T>(),
    ensures
        copy@ == array@,
{
    let mut copy: Vec<T> = Vec::new();
    let mut index: usize = 0;
    while index < array.len()
        invariant
            faithful_clone::<T>(),
            index <= array@.len(),
            copy@ == array@.take(index as int),
        decreases array@.len() - index,
    {
        let item = array[index].clone();
        assert(cloned(array@[index as int], item));
        copy.push(item);
        assert(copy@ =~= array@.take(index + 1));
        index = index + 1;
    }
    assert(array@.take(array@.len() as int) =~= array@);
    copy
}

/// Two ascending vectors merged into one: of the two elements in front, the
/// first one goes next where it is less, and the second one where it is not.
fn merge_sorted<T: Ord + Clone>(first_array: Vec<T>, second_array: Vec<T>) -> (merged: Vec<T>)
    requires
        total_order::<T>(),
        faithful_clone::<T>(),
        sorted(first_array@),
        sorted(second_array@),
        first_array@.len() + second_array@.len() <= usize::MAX,
    ensures
        sorted(merged@),
        merged@.to_multiset() == first_array@.to_multiset().add(second_array@.to_multiset()),
        merged@.len() == first_array@.len() + second_array@.len(),
{
    let mut merged: Vec<T> = Vec::with_capacity(first_array.len() + second_array.len());
    let mut first_index: usize = 0;
    let mut second_index: usize = 0;
    proof {
        broadcast use vstd::seq_lib::to_multiset_contains;

        assert(merged@.to_multiset() =~= first_array@.take(0).to_multiset().add(
            second_array@.take(0).to_multiset(),
        ));
    }
    while first_index < first_array.len() || second_index < second_array.len()
        invariant
            total_order::<T>(),
            faithful_clone::<T>(),
            sorted(first_array@),
            sorted(second_array@),
            first_index <= first_array@.len(),
            second_index <= second_array@.len(),
            sorted(merged@),
            merged@.len() == first_index + second_index,
            merged@.to_multiset() == first_array@.take(first_index as int).to_multiset().add(
                second_array@.take(second_index as int).to_multiset(),
            ),
            forall|i: int, j: int|
                0 <= i < merged@.len() && first_index <= j < first_array@.len() ==> at_most(
                    #[trigger] merged@[i],
                    #[trigger] first_array@[j],
                ),
            forall|i: int, j: int|
                0 <= i < merged@.len() && second_index <= j < second_array@.len() ==> at_most(
                    #[trigger] merged@[i],
                    #[trigger] second_array@[j],
                ),
        decreases
                (first_array@.len() - first_index) + (second_array@.len() - second_index),
    {
        let ghost before = merged@;
        let take_first = if first_index < first_array.len() && second_index < second_array.len() {
            less(&first_array[first_index], &second_array[second_index])
        } else {
            first_index < first_array.len()
        };
        if take_first {
            let item = first_array[first_index].clone();
            assert(cloned(first_array@[first_index as int], item));
            merged.push(item);
            proof {
                let taken = first_array@.take(first_index as int);
                assert(first_array@.take(first_index + 1) =~= taken.push(item));
                to_multiset_build(taken, item);
                to_multiset_build(before, item);
                assert(merged@.to_multiset() =~= first_array@.take(
                    first_index + 1,
                ).to_multiset().add(second_array@.take(second_index as int).to_multiset()));
                lemma_merged_grows(
                    before,
                    item,
                    first_array@,
                    first_index as int,
                    second_array@,
                    second_index as int,
                );
            }
            first_index = first_index + 1;
        } else {
            let item = second_array[second_index].clone();
            assert(cloned(second_array@[second_index as int], item));
            merged.push(item);
            proof {
                let taken = second_array@.take(second_index as int);
                assert(second_array@.take(second_index + 1) =~= taken.push(item));
                to_multiset_build(taken, item);
                to_multiset_build(before, item);
                assert(merged@.to_multiset() =~= first_array@.take(
                    first_index as int,
                ).to_multiset().add(second_array@.take(second_index + 1).to_multiset()));
                if first_index < first_array@.len() {
                    lemma_total(first_array@[first_index as int], item);
                }
                lemma_merged_grows(
                    before,
                    item,
                    second_array@,
                    second_index as int,
                    first_array@,
                    first_index as int,
                );
            }
            second_index = second_index + 1;
        }
    }
    proof {
        assert(first_array@.take(first_array@.len() as int) =~= first_array@);
        assert(second_array@.take(second_array@.len() as int) =~= second_array@);
    }
    merged
}

/// Where the element in front of one ascending sequence is not greater than
/// the one in front of another, and goes behind a merged sequence that lies
/// below both, the merged sequence still ascends and lies below what is left
/// of both.
pub proof fn lemma_merged_grows<T: Ord>(
    merged: Seq<T>,
    item: T,
    source: Seq<T>,
    at: int,
    other: Seq<T>,
    other_at: int,
)
    requires
        total_order::<T>(),
        sorted(merged),
        sorted(source),
        sorted(other),
        0 <= at < source.len(),
        0 <= other_at <= other.len(),
        item == source[at],
        other_at < other.len() ==> at_most(item, other[other_at]),
        forall|i: int, j: int|
            0 <= i < merged.len() && at <= j < source.len() ==> at_most(
                #[trigger] merged[i],
                #[trigger] source[j],
            ),
        forall|i: int, j: int|
            0 <= i < merged.len() && other_at <= j < other.len() ==> at_most(
                #[trigger] merged[i],
                #[trigger] other[j],
            ),
    ensures
        sorted(merged.push(item)),
        forall|i: int, j: int|
            0 <= i < merged.len() + 1 && at + 1 <= j < source.len() ==> at_most(
                #[trigger] merged.push(item)[i],
                #[trigger] source[j],
            ),
        forall|i: int, j: int|
            0 <= i < merged.len() + 1 && other_at <= j < other.len() ==> at_most(
                #[trigger] merged.push(item)[i],
                #[trigger] other[j],
            ),
{
    let longer = merged.push(item);
    lemma_total(item, item);
    assert forall|i: int, j: int| 0 <= i <= j < longer.len() implies at_most(
        #[trigger] longer[i],
        #[trigger] longer[j],
    ) by {
        if j < merged.len() {
            assert(at_most(merged[i], merged[j]));
        } else if i < merged.len() {
            assert(at_most(merged[i], source[at]));
        }
    }
    assert forall|i: int, j: int|
        0 <= i < merged.len() + 1 && at + 1 <= j < source.len() implies at_most(
        #[trigger] longer[i],
        #[trigger] source[j],
    ) by {
        if i < merged.len() {
            assert(at_most(merged[i], source[j]));
        } else {
            assert(at_most(source[at], source[j]));
        }
    }
    assert forall|i: int, j: int|
        0 <= i < merged.len() + 1 && other_at <= j < other.len() implies at_most(
        #[trigger] longer[i],
        #[trigger] other[j],
    ) by {
        if i < merged.len() {
            assert(at_most(merged[i], other[j]));
        } else {
            assert(at_most(item, other[other_at]));
            assert(at_most(other[other_at], other[j]));
        }
    }
}

} // verus!
