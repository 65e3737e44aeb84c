//! Dynamic connectivity: four interchangeable union-find structures over the
//! elements `0 .. n`, specified against one model of partitions.

pub mod depth;
pub mod forest;
pub mod laws;
pub mod partition;
pub mod path_compression_weighted_quick_union;
pub mod quick_find;
pub mod quick_union;
pub mod union_find;
pub mod weighted_quick_union;
pub mod weights;
