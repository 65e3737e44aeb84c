//! Merge sort without copies: every element is wrapped so that it can be
//! taken out of its vector, a stretch is split in two halves, each half is
//! sorted, and the two are merged by taking the elements out one by one.

use vstd::prelude::*;
use vstd::seq_lib::{lemma_multiset_commutative, to_multiset_build};

use crate::order::{at_most, lemma_total, less, sorted, total_order};
use crate::sort::merge_sort_clone::lemma_merged_grows;

verus! {

/// Every slot holds an element.
pub open spec fn filled<T>(slots: Seq<Option<T>>) -> bool {
    forall|i: int| 0 <= i < slots.len() ==> (#[trigger] slots[i]) is Some
}

/// The elements that the slots hold, an arbitrary one for an empty slot.
pub open spec fn contents<T>(slots: Seq<Option<T>>) -> Seq<T> {
    Seq::new(slots.len(), |i: int| slots[i]->0)
}

/// The elements of `array` in ascending order.
pub fn sort<T: Ord>(array: Vec<T>) -> (ordered: Vec<T>)
    requires
        total_order::<T>(),
    ensures
        sorted(ordered@),
        ordered@.to_multiset() == array@.to_multiset(),
        ordered@.len() == array@.len(),
{
    if array.len() == 0 || array.len() == 1 {
        proof {
            if array@.len() == 1 {
                lemma_total(array@[0], array@[0]);
            }
        }
        return array;
    }
    let ghost given = array@;
    let mut wrapped: Vec<Option<T>> = Vec::new();
    for item in items: array.into_iter()
        invariant
            items.seq() == given,
            wrapped@.len() == items.index(),
            forall|i: int| 0 <= i < wrapped@.len() ==> (#[trigger] wrapped@[i]) == Some(given[i]),
    {
        wrapped.push(Some(item));
    }
    proof {
        assert(contents(wrapped@) =~= given);
    }
    let mut sorted_slots = sort_no_copy(wrapped);
    let ghost sorted_contents = contents(sorted_slots@);
    let mut ordered: Vec<T> = Vec::new();
    proof {
        assert forall|i: int| 0 <= i < sorted_slots@.len() implies (#[trigger] sorted_slots@[i])
            == Some(sorted_contents[i]) by {
            assert(sorted_slots@[i] is Some);
        }
    }
    let mut index: usize = 0;
    while index < sorted_slots.len()
        invariant
            index <= sorted_slots@.len(),
            sorted_slots@.len() == sorted_contents.len(),
            ordered@ == sorted_contents.take(index as int),
            forall|i: int|
                index <= i < sorted_slots@.len() ==> (#[trigger] sorted_slots@[i]) == Some(
                    sorted_contents[i],
                ),
        decreases sorted_slots@.len() - index,
    {
        let slot = &mut sorted_slots[index];
        let item = slot.take();
        ordered.push(item.expect("None should not be present in the result array"));
        assert(ordered@ =~= sorted_contents.take(index + 1));
        index = index + 1;
    }
    proof {
        assert(sorted_contents.take(sorted_contents.len() as int) =~= sorted_contents);
    }
    ordered
}

/// The slots with their elements in ascending order.
fn sort_no_copy<T: Ord>(array: Vec<Option<T>>) -> (ordered: Vec<Option<T>>)
    requires
        total_order::<T>(),
        filled(array@),
    ensures
        filled(ordered@),
        sorted(contents(ordered@)),
        contents(ordered@).to_multiset() == contents(array@).to_multiset(),
        ordered@.len() == array@.len(),
    decreases array@.len(),
{
    let mut array = array;
    if array.len() == 0 || array.len() == 1 {
        proof {
            if array@.len() == 1 {
                lemma_total(contents(array@)[0], contents(array@)[0]);
            }
        }
        return array;
    }
    let ghost given = array@;
    let middle = array.len() / 2;
    let second = array.split_off(middle);
    let sorted_first_part = sort_no_copy(array);
    let sorted_second_part = sort_no_copy(second);
    proof {
        let front = given.subrange(0, middle as int);
        let back = given.subrange(middle as int, given.len() as int);
        assert(contents(given) =~= contents(front) + contents(back));
        lemma_multiset_commutative(contents(front), contents(back));
    }
    merge_sorted(sorted_first_part, sorted_second_part)
}

/// Two ascending vectors of slots merged into one: of the two elements in
/// front, the first one is taken next where it is less, and the second one
/// where it is not.
fn merge_sorted<T: Ord>(first_array: Vec<Option<T>>, second_array: Vec<Option<T>>) -> (merged: Vec<
    Option<T>,
>)
    requires
        total_order::<T>(),
        filled(first_array@),
        filled(second_array@),
        sorted(contents(first_array@)),
        sorted(contents(second_array@)),
        first_array@.len() + second_array@.len() <= usize::MAX,
    ensures
        filled(merged@),
        sorted(contents(merged@)),
        contents(merged@).to_multiset() == contents(first_array@).to_multiset().add(
            contents(second_array@).to_multiset(),
        ),
        merged@.len() == first_array@.len() + second_array@.len(),
{
    let mut first_array = first_array;
    let mut second_array = second_array;
    let ghost first = contents(first_array@);
    let ghost second = contents(second_array@);
    let mut merged: Vec<Option<T>> = Vec::with_capacity(first_array.len() + second_array.len());
    let mut first_index: usize = 0;
    let mut second_index: usize = 0;
    proof {
        broadcast use vstd::seq_lib::to_multiset_contains;

        assert(contents(merged@).to_multiset() =~= first.take(0).to_multiset().add(
            second.take(0).to_multiset(),
        ));
    }
    while first_index < first_array.len() || second_index < second_array.len()
        invariant
            total_order::<T>(),
            sorted(first),
            sorted(second),
            first_array@.len() == first.len(),
            second_array@.len() == second.len(),
            first_index <= first.len(),
            second_index <= second.len(),
            forall|j: int|
                first_index <= j < first.len() ==> (#[trigger] first_array@[j]) == Some(first[j]),
            forall|j: int|
                second_index <= j < second.len() ==> (#[trigger] second_array@[j]) == Some(
                    second[j],
                ),
            filled(merged@),
            sorted(contents(merged@)),
            merged@.len() == first_index + second_index,
            contents(merged@).to_multiset() == first.take(first_index as int).to_multiset().add(
                second.take(second_index as int).to_multiset(),
            ),
            forall|i: int, j: int|
                0 <= i < merged@.len() && first_index <= j < first.len() ==> at_most(
                    #[trigger] contents(merged@)[i],
                    #[trigger] first[j],
                ),
            forall|i: int, j: int|
                0 <= i < merged@.len() && second_index <= j < second.len() ==> at_most(
                    #[trigger] contents(merged@)[i],
                    #[trigger] second[j],
                ),
        decreases (first.len() - first_index) + (second.len() - second_index),
    {
        let ghost before = contents(merged@);
        let take_first = if first_index < first_array.len() && second_index < second_array.len() {
            less(
                first_array[first_index].as_ref().unwrap(),
                second_array[second_index].as_ref().unwrap(),
            )
        } else {
            first_index < first_array.len()
        };
        if take_first {
            let ghost item = first[first_index as int];
            let slot = &mut first_array[first_index];
            let taken = slot.take();
            merged.push(taken);
            proof {
                let done = first.take(first_index as int);
                assert(contents(merged@) =~= before.push(item));
                assert(first.take(first_index + 1) =~= done.push(item));
                to_multiset_build(done, item);
                to_multiset_build(before, item);
                assert(contents(merged@).to_multiset() =~= first.take(
                    first_index + 1,
                ).to_multiset().add(second.take(second_index as int).to_multiset()));
                lemma_merged_grows(
                    before,
                    item,
                    first,
                    first_index as int,
                    second,
                    second_index as int,
                );
            }
            first_index = first_index + 1;
        } else {
            let ghost item = second[second_index as int];
            let slot = &mut second_array[second_index];
            let taken = slot.take();
            merged.push(taken);
            proof {
                let done = second.take(second_index as int);
                assert(contents(merged@) =~= before.push(item));
                assert(second.take(second_index + 1) =~= done.push(item));
                to_multiset_build(done, item);
                to_multiset_build(before, item);
                assert(contents(merged@).to_multiset() =~= first.take(
                    first_index as int,
                ).to_multiset().add(second.take(second_index + 1).to_multiset()));
                if first_index < first.len() {
                    lemma_total(first[first_index as int], item);
                }
                lemma_merged_grows(
                    before,
                    item,
                    second,
                    second_index as int,
                    first,
                    first_index as int,
                );
            }
            second_index = second_index + 1;
        }
    }
    proof {
        assert(first.take(first.len() as int) =~= first);
        assert(second.take(second.len() as int) =~= second);
    }
    merged
}

} // verus!
