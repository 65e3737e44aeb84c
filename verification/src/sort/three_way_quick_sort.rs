//! Three-way quicksort: the elements are shuffled, then each stretch is
//! split around its first element into those less, those equal and those
//! greater, and the outer two parts are sorted in the same way.

use vstd::prelude::*;

use crate::order::{at_most, compare, lemma_total, same_rank, sorted, total_order, Rank};
use crate::sort::exchange::{swap, swapped};
use crate::sort::range::{
    lemma_rearranged_member, lemma_rearranged_same, lemma_rearranged_twice, lemma_rearranged_whole,
    lemma_rearranged_wider, lemma_sorted_whole, lemma_swapped_between, rearranged_between,
    sorted_between,
};
use crate::sort::shuffle_sort::shuffle;

verus! {

/// The elements of `array`, of which there is at least one, in ascending
/// order.
pub fn sort<T: Ord>(array: Vec<T>) -> (ordered: Vec<T>)
    requires
        total_order::<T>(),
        array@.len() > 0,
    ensures
        sorted(ordered@),
        ordered@.to_multiset() == array@.to_multiset(),
        ordered@.len() == array@.len(),
{
    let array = shuffle(array);
    let len = array.len();
    let ghost shuffled = array@;
    let ordered = sort_part(array, 0, len - 1);
    proof {
        if len > 1 {
            lemma_rearranged_whole(shuffled, ordered@, 0, len - 1);
            lemma_sorted_whole(ordered@);
        } else {
            lemma_total(ordered@[0], ordered@[0]);
        }
    }
    ordered
}

/// `array` with the stretch from `low` to `hi_included` sorted.
fn sort_part<T: Ord>(array: Vec<T>, low: usize, hi_included: usize) -> (ordered: Vec<T>)
    requires
        total_order::<T>(),
        low < hi_included ==> hi_included < array@.len(),
    ensures
        low < hi_included ==> rearranged_between(
            array@,
            ordered@,
            low as int,
            hi_included as int,
        ) && sorted_between(ordered@, low as int, hi_included as int),
        low >= hi_included ==> ordered@ == array@,
    decreases
            (if hi_included > low {
                hi_included - low
            } else {
                0
            }),
{
    if hi_included <= low {
        return array;
    }
    let ghost given = array@;
    let length = array.len();
    let (mut array, lower_at_place, greater_at_place) = partition(array, low, hi_included);
    let ghost split = array@;
    let ghost pivot = given[low as int];
    if lower_at_place > 0 {
        array = sort_part(array, low, lower_at_place - 1);
    }
    let ghost left_done = array@;
    proof {
        if low < lower_at_place - 1 {
            assert forall|k: int| low <= k < lower_at_place implies !at_most(
                pivot,
                #[trigger] left_done[k],
            ) by {
                let source = lemma_rearranged_member(
                    split,
                    left_done,
                    low as int,
                    lower_at_place - 1,
                    k,
                );
                assert(!at_most(pivot, split[source]));
            }
            lemma_rearranged_wider(
                split,
                left_done,
                low as int,
                lower_at_place - 1,
                low as int,
                hi_included as int,
            );
        } else {
            lemma_rearranged_same(split, low as int, hi_included as int);
        }
        lemma_rearranged_twice(given, split, left_done, low as int, hi_included as int);
    }
    let ordered = sort_part(array, greater_at_place + 1, hi_included);
    proof {
        let lower = lower_at_place as int;
        let upper = greater_at_place as int;
        if upper + 1 < hi_included {
            assert forall|k: int| upper < k <= hi_included implies !at_most(
                #[trigger] ordered@[k],
                pivot,
            ) by {
                let source = lemma_rearranged_member(
                    left_done,
                    ordered@,
                    upper + 1,
                    hi_included as int,
                    k,
                );
                assert(!at_most(left_done[source], pivot));
            }
            lemma_rearranged_wider(
                left_done,
                ordered@,
                upper + 1,
                hi_included as int,
                low as int,
                hi_included as int,
            );
        } else {
            lemma_rearranged_same(left_done, low as int, hi_included as int);
        }
        lemma_rearranged_twice(given, left_done, ordered@, low as int, hi_included as int);
        assert forall|i: int, j: int| low <= i <= j <= hi_included implies at_most(
            #[trigger] ordered@[i],
            #[trigger] ordered@[j],
        ) by {
            lemma_total(ordered@[i], ordered@[j]);
            lemma_total(ordered@[i], pivot);
            lemma_total(ordered@[j], pivot);
            if i < lower {
                assert(ordered@[i] == left_done[i]);
                assert(!at_most(pivot, left_done[i]));
                if j < lower {
                    assert(ordered@[j] == left_done[j]);
                } else if j <= upper {
                    assert(ordered@[j] == split[j]);
                    assert(same_rank(split[j], pivot));
                }
            } else if i <= upper {
                assert(ordered@[i] == split[i]);
                assert(same_rank(split[i], pivot));
                if j <= upper {
                    assert(ordered@[j] == split[j]);
                    assert(same_rank(split[j], pivot));
                }
            }
        }
    }
    ordered
}

/// Splits the stretch from `from` to `till_included` around its first
/// element: the result holds first the elements of the stretch that are less,
/// then from the first place returned to the second those that are equal,
/// then those that are greater.
fn partition<T: Ord>(array: Vec<T>, from: usize, till_included: usize) -> (result: (
    Vec<T>,
    usize,
    usize,
))
    requires
        total_order::<T>(),
        from <= till_included < array@.len(),
    ensures
        rearranged_between(array@, result.0@, from as int, till_included as int),
        from <= result.1 <= result.2 <= till_included,
        forall|k: int|
            from <= k < result.1 ==> !at_most(array@[from as int], #[trigger] result.0@[k]),
        forall|k: int|
            result.1 <= k <= result.2 ==> same_rank(#[trigger] result.0@[k], array@[from as int]),
        forall|k: int|
            result.2 < k <= till_included ==> !at_most(
                #[trigger] result.0@[k],
                array@[from as int],
            ),
{
    let mut array = array;
    let length = array.len();
    let ghost given = array@;
    let ghost pivot = given[from as int];
    let mut lower_index: usize = from;
    let mut greater_index: usize = till_included;
    let mut current_index: usize = lower_index;
    proof {
        lemma_rearranged_same(given, from as int, till_included as int);
        lemma_total(pivot, pivot);
    }
    loop
        invariant_except_break
            current_index <= greater_index,
        invariant
            total_order::<T>(),
            length == array@.len(),
            from <= till_included < array@.len(),
            rearranged_between(given, array@, from as int, till_included as int),
            from <= lower_index <= current_index <= greater_index + 1,
            lower_index <= greater_index <= till_included,
            same_rank(array@[lower_index as int], pivot),
            forall|k: int| from <= k < lower_index ==> !at_most(pivot, #[trigger] array@[k]),
            forall|k: int|
                lower_index <= k < current_index ==> same_rank(#[trigger] array@[k], pivot),
            forall|k: int|
                greater_index < k <= till_included ==> !at_most(#[trigger] array@[k], pivot),
        ensures
            current_index == greater_index + 1,
        decreases greater_index + 1 - current_index,
    {
        let ghost before = array@;
        proof {
            lemma_total(before[current_index as int], before[lower_index as int]);
            lemma_total(before[current_index as int], pivot);
            lemma_total(before[lower_index as int], pivot);
        }
        match compare(&array[current_index], &array[lower_index]) {
            Rank::Less => {
                proof {
                    lemma_swapped_between(
                        before,
                        from as int,
                        till_included as int,
                        current_index as int,
                        lower_index as int,
                    );
                    lemma_rearranged_twice(
                        given,
                        before,
                        swapped(before, current_index as int, lower_index as int),
                        from as int,
                        till_included as int,
                    );
                }
                swap(&mut array, current_index, lower_index);
                lower_index = lower_index + 1;
                current_index = current_index + 1;
                proof {
                    if lower_index < current_index - 1 {
                        assert(array@[lower_index as int] == before[lower_index as int]);
                        assert(same_rank(before[lower_index as int], pivot));
                    } else {
                        assert(array@[lower_index as int] == before[lower_index - 1]);
                    }
                }
            },
            Rank::Greater => {
                proof {
                    lemma_swapped_between(
                        before,
                        from as int,
                        till_included as int,
                        current_index as int,
                        greater_index as int,
                    );
                    lemma_rearranged_twice(
                        given,
                        before,
                        swapped(before, current_index as int, greater_index as int),
                        from as int,
                        till_included as int,
                    );
                }
                swap(&mut array, current_index, greater_index);
                greater_index = greater_index - 1;
            },
            Rank::Equal => {
                current_index = current_index + 1;
            },
        }
        if current_index > greater_index {
            break ;
        }
    }
    (array, lower_index, greater_index)
}

} // verus!
