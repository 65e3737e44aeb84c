//! Insertion sort: each element in turn moves down past the greater
//! elements before it.

use vstd::prelude::*;

use crate::order::{at_most, lemma_total, less, sorted, total_order};
use crate::sort::exchange::{lemma_swapped, swap};

verus! {

/// The elements of `array` in ascending order.
pub fn sort<T: Ord>(array: Vec<T>) -> (ordered: Vec<T>)
    requires
        total_order::<T>(),
    ensures
        sorted(ordered@),
        ordered@.to_multiset() == array@.to_multiset(),
        ordered@.len() == array@.len(),
{
    let mut array = array;
    let ghost given = array@;
    let mut current_index: usize = 1;
    proof {
        if array@.len() > 0 {
            lemma_total(array@[0], array@[0]);
        }
    }
    while current_index < array.len()
        invariant
            total_order::<T>(),
            1 <= current_index,
            array@.to_multiset() == given.to_multiset(),
            array@.len() == given.len(),
            current_index <= array@.len() || array@.len() == 0,
            sorted(array@.take(current_index as int)) || array@.len() == 0,
        decreases array@.len() - current_index,
    {
        move_to_ordered_position(&mut array, current_index);
        current_index = current_index + 1;
    }
    proof {
        if array@.len() > 0 {
            assert(array@.take(array@.len() as int) =~= array@);
        }
    }
    array
}

/// Moves the element at `current_index` down to its place among the
/// elements before it, which ascend.
fn move_to_ordered_position<T: Ord>(array: &mut Vec<T>, current_index: usize)
    requires
        total_order::<T>(),
        1 <= current_index < old(array)@.len(),
        sorted(old(array)@.take(current_index as int)),
    ensures
        final(array)@.len() == old(array)@.len(),
        final(array)@.to_multiset() == old(array)@.to_multiset(),
        sorted(final(array)@.take(current_index + 1)),
{
    let mut current_index = current_index;
    let mut previous_index = current_index - 1;
    let ghost top = current_index as int;
    proof {
        let below = array@.take(top);
        assert forall|i: int, j: int| 0 <= i <= j < top implies at_most(
            #[trigger] array@[i],
            #[trigger] array@[j],
        ) by {
            assert(at_most(below[i], below[j]));
        }
    }
    loop
        invariant_except_break
            previous_index + 1 == current_index,
        invariant
            total_order::<T>(),
            0 <= current_index <= top < array@.len(),
            array@.len() == old(array)@.len(),
            array@.to_multiset() == old(array)@.to_multiset(),
            // the elements below and above the moving one ascend among themselves
            forall|i: int, j: int|
                0 <= i <= j <= top && i != current_index && j != current_index ==> at_most(
                    #[trigger] array@[i],
                    #[trigger] array@[j],
                ),
            // the moving element is not greater than those above it
            forall|j: int|
                current_index < j <= top ==> at_most(
                    array@[current_index as int],
                    #[trigger] array@[j],
                ),
        ensures
            forall|i: int, j: int|
                0 <= i <= j <= top ==> at_most(#[trigger] array@[i], #[trigger] array@[j]),
        decreases current_index,
    {
        if less(&array[current_index], &array[previous_index]) {
            let ghost before = array@;
            swap(array, current_index, previous_index);
            proof {
                lemma_swapped(before, current_index as int, previous_index as int);
                lemma_total(before[current_index as int], before[previous_index as int]);
            }
            if previous_index == 0 {
                proof {
                    assert forall|i: int, j: int| 0 <= i <= j <= top implies at_most(
                        #[trigger] array@[i],
                        #[trigger] array@[j],
                    ) by {
                        lemma_total(array@[i], array@[j]);
                        if i == 0 && j >= 2 {
                            assert(at_most(before[1], before[j]));
                        }
                    }
                }
                break ;
            }
            previous_index = previous_index - 1;
            current_index = current_index - 1;
        } else {
            proof {
                let c = current_index as int;
                lemma_total(array@[c], array@[c - 1]);
                assert forall|i: int, j: int| 0 <= i <= j <= top implies at_most(
                    #[trigger] array@[i],
                    #[trigger] array@[j],
                ) by {
                    lemma_total(array@[i], array@[j]);
                    if i != c && j == c {
                        assert(at_most(array@[i], array@[c - 1]));
                    }
                }
            }
            break ;
        }
    }
    proof {
        let upto = array@.take(top + 1);
        assert forall|i: int, j: int| 0 <= i <= j < upto.len() implies at_most(
            #[trigger] upto[i],
            #[trigger] upto[j],
        ) by {
            assert(at_most(array@[i], array@[j]));
        }
    }
}

} // verus!
