//! Sorting routines, each with its own strategy and one contract: the result
//! ascends and holds the elements that were given, each as often as it was.

pub mod exchange;
pub mod heap_sort;
pub mod insertion_sort;
pub mod merge_sort;
pub mod merge_sort_clone;
pub mod quick_sort;
pub mod range;
pub mod selection_sort;
pub mod shell_sort;
pub mod shuffle_sort;
pub mod three_way_quick_sort;
