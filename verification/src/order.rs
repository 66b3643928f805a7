//! The order of the elements, as contracts speak of it.
//!
//! Everything here is stated over `Ord`'s specification in `vstd`; the other
//! modules speak of the order only through the names defined in this file.

use vstd::prelude::*;
use vstd::laws_cmp::obeys_cmp;
use vstd::multiset::Multiset;
use vstd::std_specs::cmp::{OrdSpec, PartialOrdSpec};
use std::cmp::Ordering;

verus! {

/// `T`'s comparison is a total order that `<`, `>` and `cmp` agree on.
pub open spec fn total_order<T: Ord>() -> bool {
    obeys_cmp::<T>()
}

/// `a` stands strictly above `b`.
pub open spec fn above<T: Ord>(a: T, b: T) -> bool {
    a.cmp_spec(&b) == Ordering::Greater
}

/// `a` does not stand above `b`: it is below `b` or ranks equal to it.
pub open spec fn at_most<T: Ord>(a: T, b: T) -> bool {
    !above(a, b)
}

/// `a` and `b` rank equal. They need not be the same value.
pub open spec fn equiv<T: Ord>(a: T, b: T) -> bool {
    a.cmp_spec(&b) == Ordering::Equal
}

/// Two values of `T` that rank equal are the same value, as for the integers.
pub open spec fn exact_order<T: Ord>() -> bool {
    forall|a: T, b: T| #[trigger] equiv(a, b) ==> a == b
}

/// No element stands above a later one.
pub open spec fn ascending<T: Ord>(s: Seq<T>) -> bool {
    forall|i: int, j: int| 0 <= i < j < s.len() ==> at_most(s[i], s[j])
}

/// No element stands above an earlier one.
pub open spec fn descending<T: Ord>(s: Seq<T>) -> bool {
    forall|i: int, j: int| 0 <= i < j < s.len() ==> at_most(s[j], s[i])
}

/// `x` is one of `m` and none of `m` stands below it.
pub open spec fn is_least<T: Ord>(x: T, m: Multiset<T>) -> bool {
    &&& m.contains(x)
    &&& forall|y: T| m.contains(y) ==> at_most(x, y)
}

/// Every value ranks equal to itself.
pub proof fn lemma_reflexive<T: Ord>(a: T)
    requires
        total_order::<T>(),
    ensures
        equiv(a, a),
        at_most(a, a),
{
    reveal(vstd::laws_cmp::obeys_cmp_ord);
    reveal(vstd::laws_cmp::obeys_cmp_partial_ord);
    reveal(vstd::laws_cmp::obeys_partial_cmp_spec_properties);
    assert(a.partial_cmp_spec(&a) == Some(a.cmp_spec(&a)));
}

/// Of two values one is at most the other, and both are only if they rank equal.
pub proof fn lemma_total<T: Ord>(a: T, b: T)
    requires
        total_order::<T>(),
    ensures
        at_most(a, b) || at_most(b, a),
        above(a, b) ==> at_most(b, a) && !equiv(a, b) && !equiv(b, a),
        equiv(a, b) <==> at_most(a, b) && at_most(b, a),
        equiv(a, b) <==> equiv(b, a),
{
    reveal(vstd::laws_cmp::obeys_cmp_ord);
    reveal(vstd::laws_cmp::obeys_cmp_partial_ord);
    reveal(vstd::laws_cmp::obeys_partial_cmp_spec_properties);
    assert(a.partial_cmp_spec(&b) == Some(a.cmp_spec(&b)));
    assert(b.partial_cmp_spec(&a) == Some(b.cmp_spec(&a)));
}

/// `at_most` is transitive, and strictly so when one of the two steps is strict.
pub proof fn lemma_transitive<T: Ord>(a: T, b: T, c: T)
    requires
        total_order::<T>(),
        at_most(a, b),
        at_most(b, c),
    ensures
        at_most(a, c),
        above(b, a) || above(c, b) ==> above(c, a),
        equiv(a, c) ==> equiv(a, b) && equiv(b, c),
{
    reveal(vstd::laws_cmp::obeys_cmp_ord);
    reveal(vstd::laws_cmp::obeys_cmp_partial_ord);
    reveal(vstd::laws_cmp::obeys_partial_cmp_spec_properties);
    reveal(vstd::laws_eq::obeys_eq_spec_properties);
    assert(a.partial_cmp_spec(&b) == Some(a.cmp_spec(&b)));
    assert(b.partial_cmp_spec(&a) == Some(b.cmp_spec(&a)));
    assert(b.partial_cmp_spec(&c) == Some(b.cmp_spec(&c)));
    assert(c.partial_cmp_spec(&b) == Some(c.cmp_spec(&b)));
    assert(a.partial_cmp_spec(&c) == Some(a.cmp_spec(&c)));
    assert(c.partial_cmp_spec(&a) == Some(c.cmp_spec(&a)));
}

/// Ranking equal is transitive.
pub proof fn lemma_equiv_transitive<T: Ord>(a: T, b: T, c: T)
    requires
        total_order::<T>(),
        equiv(a, b),
        equiv(b, c),
    ensures
        equiv(a, c),
{
    lemma_total(a, b);
    lemma_total(b, c);
    lemma_total(a, c);
    lemma_transitive(a, b, c);
    lemma_transitive(c, b, a);
}

/// Whether `a` stands strictly above `b`.
pub fn is_above<T: Ord>(a: &T, b: &T) -> (r: bool)
    requires
        total_order::<T>(),
    ensures
        r == above(*a, *b),
{
    proof {
        reveal(vstd::laws_cmp::obeys_cmp_ord);
        reveal(vstd::laws_cmp::obeys_cmp_partial_ord);
    }
    *a > *b
}

} // verus!
