//! Small collections: a list with two ends, a list that grows at its tail,
//! a sorted symbol table and a binary heap.

use vstd::prelude::*;

pub mod binary_search_symbol_table;
pub mod binary_tree;
pub mod dequeue;
pub mod keys;
pub mod simple_binary_heap;
pub mod different_linked_list;
pub mod simple_linked_list;
pub mod stack;

verus! {

/// Something that holds a number of elements.
pub trait Collection {
    /// The invariant of the representation.
    spec fn wf(&self) -> bool;

    /// How many elements there are.
    spec fn count(&self) -> nat;

    /// Tells whether there is no element.
    fn is_empty(&self) -> (empty: bool)
        requires
            self.wf(),
        ensures
            empty == (self.count() == 0),
    ;

    /// The number of elements.
    fn size(&self) -> (size: usize)
        requires
            self.wf(),
        ensures
            size == self.count(),
    ;
}

} // verus!
