//! The entry point: any finite iterator over elements of a totally ordered
//! type can be turned into a lazy sort of them.

use vstd::prelude::*;
use vstd::std_specs::iter::IteratorSpec;
use crate::order::total_order;
use crate::quick::{QuickSort, SMALL_POOL};
use crate::heap::HeapSort;

verus! {

/// `Iterator::collect` into a `Vec`: the items that the iterator yields
/// before it ends, in the order in which it yields them. The call returns
/// once the iterator has ended; it is trusted to take each item as `next`
/// hands it out and to stop at the first `None`.
#[verifier::external_body]
fn gather<I: Iterator>(iter: I) -> (v: Vec<I::Item>)
    requires
        iter.obeys_prophetic_iter_laws(),
    ensures
        v@ == iter.remaining(),
{
    iter.collect()
}

/// An iterator extension trait that provides two methods for lazily sorting.
///
/// Both take all the items from the iterator at once; what is lazy is the
/// ordering. Both sorts produce the items smallest first.
pub trait LazySortIterator: Iterator + Sized where Self::Item: Ord {
    /// Lazily sort using quicksort. If the items are at most `SMALL_POOL`,
    /// they are sorted at once.
    fn quick_sort(self) -> (r: QuickSort<Self::Item>)
        requires
            total_order::<Self::Item>(),
            self.obeys_prophetic_iter_laws(),
        ensures
            r.wf(),
            r@ == self.remaining().to_multiset(),
            r.inner() is Base <==> self.remaining().len() <= SMALL_POOL,
    {
        QuickSort::new(gather(self))
    }

    /// Lazily sort using heapsort.
    fn heap_sort(self) -> (r: HeapSort<Self::Item>)
        requires
            total_order::<Self::Item>(),
            self.obeys_prophetic_iter_laws(),
        ensures
            r.wf(),
            r@ == self.remaining().to_multiset(),
    {
        HeapSort::new(gather(self))
    }
}

impl<I> LazySortIterator for I where I: Iterator, I::Item: Ord {
}

} // verus!
