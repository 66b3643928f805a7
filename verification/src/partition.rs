//! Partitioning a pool around its last element.

use vstd::prelude::*;
use vstd::seq_lib::lemma_multiset_commutative;
use crate::order::{total_order, above, at_most, is_above, lemma_reflexive};

verus! {

/// `itertools::partition` with the test "stands above `pivot`".
///
/// The call reorders `rest` in place, only by swapping elements, so that
/// those that pass the test come before those that fail it, and returns how
/// many passed.
#[verifier::external_body]
fn partition_above<T: Ord>(rest: &mut [T], pivot: &T) -> (split: usize)
    requires
        total_order::<T>(),
    ensures
        final(rest)@.len() == old(rest)@.len(),
        final(rest)@.to_multiset() == old(rest)@.to_multiset(),
        split <= old(rest)@.len(),
        forall|i: int| 0 <= i < split ==> above(#[trigger] final(rest)@[i], *pivot),
        forall|i: int| split <= i < final(rest)@.len() ==> at_most(#[trigger] final(rest)@[i], *pivot),
{
    itertools::partition(rest, |el| is_above(el, pivot))
}

/// Partitions all of `pool` but its last element, the pivot, which stays in
/// place: the elements that stand above the pivot come first, then those that
/// do not. Returns the index of the first element of the second group, or the
/// pivot's index if that group is empty.
pub fn partition_by_last<T: Ord>(pool: &mut [T]) -> (split: usize)
    requires
        total_order::<T>(),
        old(pool)@.len() >= 1,
    ensures
        final(pool)@.len() == old(pool)@.len(),
        final(pool)@.to_multiset() == old(pool)@.to_multiset(),
        final(pool)@.last() == old(pool)@.last(),
        split < old(pool)@.len(),
        forall|i: int| 0 <= i < split ==> above(#[trigger] final(pool)@[i], old(pool)@.last()),
        forall|i: int|
            split <= i < final(pool)@.len() ==> at_most(#[trigger] final(pool)@[i], old(pool)@.last()),
{
    let n: usize = pool.len() - 1;
    let ghost before = pool@;
    let (rest, last) = pool.split_at_mut(n);
    let split = partition_above(rest, &last[0]);
    proof {
        let head = before.subrange(0, n as int);
        let tail = before.subrange(n as int, before.len() as int);
        assert(before =~= head + tail);
        lemma_multiset_commutative(head, tail);
        lemma_multiset_commutative(rest@, tail);
        lemma_reflexive(before.last());
    }
    split
}

} // verus!
