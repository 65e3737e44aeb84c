//! Shellsort: insertion sort over elements that lie a step apart, with steps
//! that shrink to one along the sequence 1, 4, 13, 40, ...

use vstd::prelude::*;

use crate::order::{at_most, lemma_total, less, sorted, total_order};
use crate::sort::exchange::{lemma_swapped, swap};

verus! {

/// Whether `step` belongs to the sequence that starts with one and goes on
/// from each member to three times that member and one.
pub open spec fn in_sequence(step: nat) -> bool
    decreases step,
{
    step == 1 || (step > 1 && step % 3 == 1 && in_sequence(step / 3))
}

/// The elements of `array` in ascending order.
pub fn sort<T: Ord>(array: Vec<T>) -> (ordered: Vec<T>)
    requires
        total_order::<T>(),
    ensures
        sorted(ordered@),
        ordered@.to_multiset() == array@.to_multiset(),
        ordered@.len() == array@.len(),
{
    let mut array = array;
    let ghost given = array@;
    let length = array.len();
    let mut step = compute_step(length);
    while step >= 1
        invariant
            total_order::<T>(),
            length == array@.len(),
            array@.to_multiset() == given.to_multiset(),
            step == 0 || in_sequence(step as nat),
            step == 0 ==> sorted(array@),
        decreases step,
    {
        let mut i: usize = step;
        proof {
            if length > 0 {
                lemma_total(array@[0], array@[0]);
            }
        }
        while i < length
            invariant
                total_order::<T>(),
                length == array@.len(),
                array@.to_multiset() == given.to_multiset(),
                1 <= step <= i,
                step == 1 && length > 0 ==> i <= length && sorted(array@.take(i as int)),
            decreases length - i,
        {
            let mut j: usize = i;
            proof {
                if step == 1 {
                    let below = array@.take(i as int);
                    assert forall|a: int, b: int| 0 <= a <= b < i implies at_most(
                        #[trigger] array@[a],
                        #[trigger] array@[b],
                    ) by {
                        assert(at_most(below[a], below[b]));
                    }
                }
            }
            while j >= step
                invariant
                    total_order::<T>(),
                    length == array@.len(),
                    array@.to_multiset() == given.to_multiset(),
                    1 <= step,
                    j <= i < length,
                    step == 1 ==> forall|a: int, b: int|
                        0 <= a <= b <= i && a != j && b != j ==> at_most(
                            #[trigger] array@[a],
                            #[trigger] array@[b],
                        ),
                    step == 1 ==> forall|b: int|
                        j < b <= i ==> at_most(array@[j as int], #[trigger] array@[b]),
                ensures
                    step == 1 ==> forall|a: int, b: int|
                        0 <= a <= b <= i ==> at_most(#[trigger] array@[a], #[trigger] array@[b]),
                decreases j,
            {
                if less(&array[j], &array[j - step]) {
                    let ghost before = array@;
                    proof {
                        lemma_swapped(before, j as int, j - step);
                        lemma_total(before[j as int], before[j - step]);
                    }
                    swap(&mut array, j, j - step);
                    j = j - step;
                } else {
                    proof {
                        if step == 1 {
                            lemma_total(array@[j as int], array@[j - 1]);
                            assert forall|a: int, b: int| 0 <= a <= b <= i implies at_most(
                                #[trigger] array@[a],
                                #[trigger] array@[b],
                            ) by {
                                lemma_total(array@[a], array@[b]);
                                if a != j && b == j {
                                    assert(at_most(array@[a], array@[j - 1]));
                                }
                            }
                        }
                    }
                    break ;
                }
            }
            proof {
                if step == 1 {
                    assert forall|a: int, b: int| 0 <= a <= b <= i implies at_most(
                        #[trigger] array@[a],
                        #[trigger] array@[b],
                    ) by {
                        lemma_total(array@[a], array@[b]);
                        if j == 0 && a == 0 && b >= 1 {
                            assert(at_most(array@[0], array@[b]));
                        }
                    }
                    let upto = array@.take(i + 1);
                    assert forall|a: int, b: int| 0 <= a <= b < upto.len() implies at_most(
                        #[trigger] upto[a],
                        #[trigger] upto[b],
                    ) by {
                        assert(at_most(array@[a], array@[b]));
                    }
                }
            }
            i = i + 1;
        }
        proof {
            if step == 1 {
                if length > 0 {
                    assert(array@.take(length as int) =~= array@);
                }
            }
        }
        step = step / 3;
    }
    array
}

/// The first step of the sequence that is not below a third of
/// `array_size`, the third rounded down.
fn compute_step(array_size: usize) -> (step: usize)
    ensures
        in_sequence(step as nat),
        step >= array_size / 3,
        step > 1 ==> step / 3 < array_size / 3,
{
    let mut step: usize = 1;
    while step < array_size / 3
        invariant
            in_sequence(step as nat),
            step > 1 ==> step / 3 < array_size / 3,
        decreases array_size - step,
    {
        proof {
            assert((3 * step + 1) / 3 == step);
            assert((3 * step + 1) % 3 == 1);
        }
        step = 3 * step + 1;
    }
    step
}

} // verus!
