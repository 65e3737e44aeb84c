//! Quicksort: the elements are shuffled, then each stretch is split around
//! its first element into those not greater and those greater, and the two
//! parts are sorted in the same way.

use vstd::prelude::*;

use crate::order::{at_most, greater, lemma_total, not_greater, sorted, total_order};
use crate::sort::exchange::{swap, swapped};
use crate::sort::range::{
    lemma_rearranged_member, lemma_rearranged_same, lemma_rearranged_twice, lemma_rearranged_whole,
    lemma_rearranged_wider, lemma_sorted_whole, lemma_swapped_between, rearranged_between,
    sorted_between,
};
use crate::sort::shuffle_sort::shuffle;

verus! {

/// The elements of `array`, of which there is at least one, in ascending
/// order.
pub fn sort<T: Ord>(array: Vec<T>) -> (ordered: Vec<T>)
    requires
        total_order::<T>(),
        array@.len() > 0,
    ensures
        sorted(ordered@),
        ordered@.to_multiset() == array@.to_multiset(),
        ordered@.len() == array@.len(),
{
    let array = shuffle(array);
    let len = array.len();
    let ghost shuffled = array@;
    let ordered = sort_part(array, 0, len - 1);
    proof {
        if len > 1 {
            lemma_rearranged_whole(shuffled, ordered@, 0, len - 1);
            lemma_sorted_whole(ordered@);
        } else {
            lemma_total(ordered@[0], ordered@[0]);
        }
    }
    ordered
}

/// `array` with the stretch from `low` to `hi_included` sorted.
fn sort_part<T: Ord>(array: Vec<T>, low: usize, hi_included: usize) -> (ordered: Vec<T>)
    requires
        total_order::<T>(),
        low < hi_included ==> hi_included < array@.len(),
    ensures
        low < hi_included ==> rearranged_between(
            array@,
            ordered@,
            low as int,
            hi_included as int,
        ) && sorted_between(ordered@, low as int, hi_included as int),
        low >= hi_included ==> ordered@ == array@,
    decreases
            (if hi_included > low {
                hi_included - low
            } else {
                0
            }),
{
    if hi_included <= low {
        return array;
    }
    let ghost given = array@;
    let length = array.len();
    let (mut array, elem_at_place) = partition(array, low, hi_included);
    let ghost split = array@;
    let ghost pivot = split[elem_at_place as int];
    if elem_at_place > 0 {
        array = sort_part(array, low, elem_at_place - 1);
    }
    let ghost left_done = array@;
    proof {
        if low < elem_at_place - 1 {
            assert forall|k: int| low <= k < elem_at_place implies at_most(
                #[trigger] left_done[k],
                pivot,
            ) by {
                let source = lemma_rearranged_member(
                    split,
                    left_done,
                    low as int,
                    elem_at_place - 1,
                    k,
                );
                assert(at_most(split[source], pivot));
            }
            lemma_rearranged_wider(
                split,
                left_done,
                low as int,
                elem_at_place - 1,
                low as int,
                hi_included as int,
            );
        } else {
            lemma_rearranged_same(split, low as int, hi_included as int);
        }
        lemma_rearranged_twice(given, split, left_done, low as int, hi_included as int);
    }
    let ordered = sort_part(array, elem_at_place + 1, hi_included);
    proof {
        let place = elem_at_place as int;
        if place + 1 < hi_included {
            assert forall|k: int| place < k <= hi_included implies at_most(
                pivot,
                #[trigger] ordered@[k],
            ) by {
                let source = lemma_rearranged_member(
                    left_done,
                    ordered@,
                    place + 1,
                    hi_included as int,
                    k,
                );
                assert(at_most(pivot, left_done[source]));
            }
            lemma_rearranged_wider(
                left_done,
                ordered@,
                place + 1,
                hi_included as int,
                low as int,
                hi_included as int,
            );
        } else {
            lemma_rearranged_same(left_done, low as int, hi_included as int);
        }
        lemma_rearranged_twice(given, left_done, ordered@, low as int, hi_included as int);
        assert forall|i: int, j: int| low <= i <= j <= hi_included implies at_most(
            #[trigger] ordered@[i],
            #[trigger] ordered@[j],
        ) by {
            lemma_total(ordered@[i], ordered@[j]);
            if i < place {
                assert(ordered@[i] == left_done[i]);
                assert(at_most(left_done[i], pivot));
                if j < place {
                    assert(ordered@[j] == left_done[j]);
                } else if j > place {
                    assert(at_most(pivot, ordered@[j]));
                }
            } else if i == place {
                if j > place {
                    assert(at_most(pivot, ordered@[j]));
                }
            }
        }
    }
    ordered
}

/// Splits the stretch from `from` to `till_included` around its first
/// element: the result holds that element at the place returned, before it
/// the elements of the stretch that are not greater, and after it those that
/// are greater.
fn partition<T: Ord>(array: Vec<T>, from: usize, till_included: usize) -> (result: (Vec<T>, usize))
    requires
        total_order::<T>(),
        from < till_included < array@.len(),
    ensures
        rearranged_between(array@, result.0@, from as int, till_included as int),
        from <= result.1 <= till_included,
        result.0@[result.1 as int] == array@[from as int],
        forall|k: int|
            from <= k < result.1 ==> at_most(#[trigger] result.0@[k], array@[from as int]),
        forall|k: int|
            result.1 < k <= till_included ==> !at_most(
                #[trigger] result.0@[k],
                array@[from as int],
            ),
{
    let mut array = array;
    let length = array.len();
    let ghost given = array@;
    let ghost pivot = given[from as int];
    let mut lower_index: usize = from + 1;
    let mut greater_index: usize = till_included;
    let ghost mut first_round = true;
    proof {
        lemma_rearranged_same(given, from as int, till_included as int);
    }
    loop
        invariant_except_break
            lower_index <= till_included,
            greater_index > from,
            first_round || at_most(array@[lower_index as int], pivot),
        invariant
            total_order::<T>(),
            from < till_included < array@.len(),
            length == array@.len(),
            rearranged_between(given, array@, from as int, till_included as int),
            array@[from as int] == pivot,
            from < lower_index <= till_included + 1,
            from <= greater_index <= till_included,
            forall|k: int| from < k < lower_index ==> at_most(#[trigger] array@[k], pivot),
            forall|k: int|
                greater_index < k <= till_included ==> !at_most(#[trigger] array@[k], pivot),
        ensures
            lower_index > greater_index,
        decreases
                (till_included + 1 - lower_index) + greater_index + (if first_round {
                    1int
                } else {
                    0int
                }),
    {
        let ghost start = lower_index;
        while not_greater(&array[lower_index], &array[from])
            invariant_except_break
                lower_index <= till_included,
            invariant
                total_order::<T>(),
                from < till_included < array@.len(),
                length == array@.len(),
                array@[from as int] == pivot,
                start <= lower_index <= till_included + 1,
                from < lower_index,
                forall|k: int| from < k < lower_index ==> at_most(#[trigger] array@[k], pivot),
            ensures
                at_most(array@[start as int], pivot) ==> lower_index > start,
            decreases till_included + 1 - lower_index,
        {
            lower_index = lower_index + 1;
            if lower_index >= till_included {
                break ;
            }
        }
        while greater(&array[greater_index], &array[from])
            invariant_except_break
                greater_index > from,
            invariant
                total_order::<T>(),
                from < till_included < array@.len(),
                array@[from as int] == pivot,
                from <= greater_index <= till_included,
                forall|k: int|
                    greater_index < k <= till_included ==> !at_most(#[trigger] array@[k], pivot),
            ensures
                greater_index > from ==> at_most(array@[greater_index as int], pivot),
            decreases greater_index,
        {
            greater_index = greater_index - 1;
            if greater_index <= from {
                break ;
            }
        }
        if lower_index > greater_index {
            break ;
        }
        proof {
            lemma_swapped_between(
                array@,
                from as int,
                till_included as int,
                lower_index as int,
                greater_index as int,
            );
            lemma_rearranged_twice(
                given,
                array@,
                swapped(array@, lower_index as int, greater_index as int),
                from as int,
                till_included as int,
            );
            first_round = false;
        }
        swap(&mut array, lower_index, greater_index);
    }
    proof {
        lemma_swapped_between(
            array@,
            from as int,
            till_included as int,
            from as int,
            greater_index as int,
        );
        lemma_rearranged_twice(
            given,
            array@,
            swapped(array@, from as int, greater_index as int),
            from as int,
            till_included as int,
        );
        lemma_total(pivot, pivot);
    }
    swap(&mut array, from, greater_index);
    (array, greater_index)
}

} // verus!
