//! Lazy sorting: iterators that hand out the elements of a collection in
//! order and do the work of ordering only as elements are asked for.

pub mod order;
pub mod slice_specs;
pub mod partition;
pub mod insertion;
pub mod protocol;
pub mod quick;
pub mod reverse;
pub mod heap;
pub mod lazy;
pub mod laws;

pub use crate::heap::HeapSort;
pub use crate::lazy::LazySortIterator;
pub use crate::quick::QuickSort;
