//! Elements seen through the reverse of their order.

use vstd::prelude::*;
use vstd::std_specs::cmp::OrdSpec;
use std::cmp::Ordering;
use crate::order::{total_order, above};

verus! {

/// An element that ranks by the reverse of its own order: the smallest
/// element ranks highest.
#[derive(Debug)]
pub struct ReverseOrder<T>(pub T);

/// `a` ranks strictly higher than `b`: the element it holds is the smaller.
pub open spec fn ranks_over<T: Ord>(a: ReverseOrder<T>, b: ReverseOrder<T>) -> bool {
    above(b.0, a.0)
}

impl<T: Ord> ReverseOrder<T> {
    /// Compares the two elements the other way round.
    pub fn partial_cmp(&self, other: &Self) -> (r: Option<Ordering>)
        requires
            total_order::<T>(),
        ensures
            r == Some(other.0.cmp_spec(&self.0)),
    {
        proof {
            reveal(vstd::laws_cmp::obeys_cmp_ord);
            reveal(vstd::laws_cmp::obeys_cmp_partial_ord);
        }
        other.0.partial_cmp(&self.0)
    }

    /// Compares the two elements the other way round.
    pub fn cmp(&self, other: &Self) -> (r: Ordering)
        requires
            total_order::<T>(),
        ensures
            r == other.0.cmp_spec(&self.0),
    {
        proof {
            reveal(vstd::laws_cmp::obeys_cmp_ord);
        }
        other.0.cmp(&self.0)
    }

    /// Whether `self` ranks strictly higher than `other`.
    pub fn outranks(&self, other: &Self) -> (r: bool)
        requires
            total_order::<T>(),
        ensures
            r == ranks_over(*self, *other),
    {
        match self.cmp(other) {
            Ordering::Greater => true,
            _ => false,
        }
    }
}

} // verus!
