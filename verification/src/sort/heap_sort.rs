//! Heapsort: the elements are put in heap order, and the greatest one moves
//! behind the heap until the heap is used up.

use vstd::prelude::*;

use crate::collection::simple_binary_heap::SimpleBinaryHeap;
use crate::order::{sorted, total_order};

verus! {

/// The elements of `array`, of which there is at least one, in ascending
/// order.
pub fn sort<T: Ord>(array: Vec<T>) -> (ordered: Vec<T>)
    requires
        total_order::<T>(),
        array@.len() > 0,
    ensures
        sorted(ordered@),
        ordered@.to_multiset() == array@.to_multiset(),
        ordered@.len() == array@.len(),
{
    SimpleBinaryHeap::from(array).sort()
}

} // verus!
