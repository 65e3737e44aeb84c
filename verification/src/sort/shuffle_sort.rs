//! A shuffle: each element in turn changes places with an element drawn at
//! random from those up to it.

use rand::rngs::ThreadRng;
use rand::Rng;
use vstd::prelude::*;

use crate::sort::exchange::{lemma_swapped, swap, swapped};

verus! {

/// The handle of `rand` on the random number generator of the current
/// thread. Nothing is known of what it holds.
#[verifier::external_type_specification]
#[verifier::external_body]
pub struct ExThreadRng(rand::rngs::ThreadRng);

/// `rand::thread_rng` hands out the generator of the current thread; nothing
/// is claimed of it. Where the system gives it no seed, `rand` stops the
/// program.
pub assume_specification[ rand::thread_rng ]() -> (generator: ThreadRng)
;

/// `rand::Rng::gen_range` on the half-open range from zero to `bound`: a
/// number below `bound`, whichever it is. The range must not be empty, or
/// `rand` panics.
#[verifier::external_body]
fn draw_below(generator: &mut ThreadRng, bound: usize) -> (drawn: usize)
    requires
        bound > 0,
    ensures
        drawn < bound,
{
    generator.gen_range(0..bound)
}

/// The elements of `array` in the order that draws at random make of them.
pub fn shuffle<T: Ord>(array: Vec<T>) -> (shuffled: Vec<T>)
    ensures
        shuffled@.to_multiset() == array@.to_multiset(),
        shuffled@.len() == array@.len(),
        exists|draws: Seq<usize>|
            fair_draws(draws, array@.len()) && shuffled@ == #[trigger] exchanged_in_turn(
                array@,
                draws,
                array@.len(),
            ),
{
    // for each place in turn a place up to it is drawn; the exchanges that
    // the draws ask for are made once all are drawn
    let mut rng = rand::thread_rng();
    let length = array.len();
    let mut draws: Vec<usize> = Vec::with_capacity(length);
    let mut index: usize = 0;
    while index < length
        invariant
            index <= length,
            draws@.len() == index,
            forall|place: int| 0 <= place < index ==> (#[trigger] draws@[place]) <= place,
        decreases length - index,
    {
        let rand_to = index + 1;
        let rand = draw_below(&mut rng, rand_to);
        draws.push(rand);
        index = index + 1;
    }
    shuffle_with(array, &draws)
}

/// For each place one draw, and none beyond its place.
pub open spec fn fair_draws(draws: Seq<usize>, length: nat) -> bool {
    &&& draws.len() == length
    &&& forall|place: int| 0 <= place < length ==> (#[trigger] draws[place]) <= place
}

/// `items` after the first `upto` exchanges: for each place in turn, of the
/// element there with the element at the place drawn for it.
pub open spec fn exchanged_in_turn<T>(items: Seq<T>, draws: Seq<usize>, upto: nat) -> Seq<T>
    decreases upto,
{
    if upto == 0 {
        items
    } else {
        swapped(
            exchanged_in_turn(items, draws, (upto - 1) as nat),
            upto - 1,
            draws[upto - 1] as int,
        )
    }
}

/// The exchanges keep the elements, each as often as it was there.
pub proof fn lemma_exchanged_in_turn<T>(items: Seq<T>, draws: Seq<usize>, upto: nat)
    requires
        fair_draws(draws, items.len()),
        upto <= items.len(),
    ensures
        exchanged_in_turn(items, draws, upto).len() == items.len(),
        exchanged_in_turn(items, draws, upto).to_multiset() == items.to_multiset(),
    decreases upto,
{
    if upto > 0 {
        lemma_exchanged_in_turn(items, draws, (upto - 1) as nat);
        assert(draws[upto - 1] <= upto - 1);
        lemma_swapped(
            exchanged_in_turn(items, draws, (upto - 1) as nat),
            upto - 1,
            draws[upto - 1] as int,
        );
    }
}

/// The elements of `array` in the order that the given draws make: for
/// each place in turn the element there is exchanged with the element at the
/// place drawn for it.
pub fn shuffle_with<T>(array: Vec<T>, draws: &Vec<usize>) -> (shuffled: Vec<T>)
    requires
        fair_draws(draws@, array@.len()),
    ensures
        shuffled@ == exchanged_in_turn(array@, draws@, array@.len()),
        shuffled@.to_multiset() == array@.to_multiset(),
        shuffled@.len() == array@.len(),
{
    let mut array = array;
    let ghost given = array@;
    let length = array.len();
    let mut index: usize = 0;
    while index < length
        invariant
            index <= length,
            length == given.len(),
            fair_draws(draws@, given.len()),
            array@ == exchanged_in_turn(given, draws@, index as nat),
        decreases length - index,
    {
        proof {
            lemma_exchanged_in_turn(given, draws@, index as nat);
        }
        swap(&mut array, index, draws[index]);
        index = index + 1;
    }
    proof {
        lemma_exchanged_in_turn(given, draws@, length as nat);
    }
    array
}

} // verus!
