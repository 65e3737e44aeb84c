//! Selection sort: each place in turn gets the smallest of the elements
//! from it onwards.

use vstd::prelude::*;

use crate::order::{at_most, lemma_total, less, sorted, total_order};
use crate::sort::exchange::{lemma_swapped, swap};

verus! {

/// The elements of `array` in ascending order.
pub fn sort<T: Ord>(array: Vec<T>) -> (ordered: Vec<T>)
    requires
        total_order::<T>(),
    ensures
        sorted(ordered@),
        ordered@.to_multiset() == array@.to_multiset(),
        ordered@.len() == array@.len(),
{
    let mut array = array;
    let ghost given = array@;
    let mut index: usize = 0;
    while index < array.len()
        invariant
            total_order::<T>(),
            index <= array@.len(),
            array@.len() == given.len(),
            array@.to_multiset() == given.to_multiset(),
            forall|i: int, j: int|
                0 <= i < index && i <= j < array@.len() ==> at_most(
                    #[trigger] array@[i],
                    #[trigger] array@[j],
                ),
        decreases array@.len() - index,
    {
        let min_index = find_smallest_from(&array, index);
        let ghost before = array@;
        swap(&mut array, index, min_index);
        proof {
            lemma_swapped(before, index as int, min_index as int);
            assert forall|i: int, j: int|
                0 <= i < index + 1 && i <= j < array@.len() implies at_most(
                #[trigger] array@[i],
                #[trigger] array@[j],
            ) by {
                if i < index {
                    let source = if j == index {
                        min_index as int
                    } else if j == min_index {
                        index as int
                    } else {
                        j
                    };
                    assert(at_most(before[i], before[source]));
                } else {
                    let source = if j == index {
                        min_index as int
                    } else if j == min_index {
                        index as int
                    } else {
                        j
                    };
                    assert(at_most(before[min_index as int], before[source]));
                }
            }
        }
        index = index + 1;
    }
    array
}

/// The place of a smallest element among those from `index` onwards: the
/// first such place.
fn find_smallest_from<T: Ord>(array: &Vec<T>, index: usize) -> (min_index: usize)
    requires
        total_order::<T>(),
        index < array@.len(),
    ensures
        index <= min_index < array@.len(),
        forall|k: int|
            index <= k < array@.len() ==> at_most(array@[min_index as int], #[trigger] array@[k]),
        forall|k: int|
            index <= k < min_index ==> !at_most(#[trigger] array@[k], array@[min_index as int]),
{
    let length = array.len();
    let mut min_index = index;
    let mut current_index = index + 1;
    proof {
        lemma_total(array@[index as int], array@[index as int]);
    }
    while current_index < length
        invariant
            total_order::<T>(),
            length == array@.len(),
            index <= min_index < current_index <= array@.len(),
            forall|k: int|
                index <= k < current_index ==> at_most(
                    array@[min_index as int],
                    #[trigger] array@[k],
                ),
            forall|k: int|
                index <= k < min_index ==> !at_most(
                    #[trigger] array@[k],
                    array@[min_index as int],
                ),
        decreases array@.len() - current_index,
    {
        if less(&array[current_index], &array[min_index]) {
            proof {
                let smaller = array@[current_index as int];
                lemma_total(smaller, array@[min_index as int]);
                lemma_total(smaller, smaller);
                assert forall|k: int| index <= k < current_index + 1 implies at_most(
                    smaller,
                    #[trigger] array@[k],
                ) by {
                    if k < current_index {
                        assert(at_most(array@[min_index as int], array@[k]));
                    }
                }
                assert forall|k: int| index <= k < current_index implies !at_most(
                    #[trigger] array@[k],
                    smaller,
                ) by {
                    assert(at_most(array@[min_index as int], array@[k]));
                }
            }
            min_index = current_index;
        }
        current_index = current_index + 1;
    }
    min_index
}

} // verus!
