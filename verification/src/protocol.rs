//! What both sorts promise of one step: the next element is a least one of
//! those that remain.

use vstd::prelude::*;
use vstd::multiset::Multiset;
use crate::order::{total_order, at_most, ascending, is_least, lemma_reflexive};

verus! {

/// One step of production, from the elements `before` it to those `after` it:
/// either `r` is a least element of `before` and `after` lacks one copy of
/// it, or nothing was left, `r` is `None` and nothing changed.
pub open spec fn yields<T: Ord>(before: Multiset<T>, r: Option<T>, after: Multiset<T>) -> bool {
    match r {
        Some(x) => is_least(x, before) && after == before.remove(x),
        None => before.len() == 0 && after == before,
    }
}

/// A step produces an element exactly when one is left, and then one fewer
/// is left.
pub proof fn lemma_yields_count<T: Ord>(before: Multiset<T>, r: Option<T>, after: Multiset<T>)
    requires
        yields(before, r, after),
    ensures
        r is None <==> before.len() == 0,
        r is Some ==> after.len() + 1 == before.len(),
        r is None ==> after.len() == 0,
{
    broadcast use vstd::multiset::group_multiset_axioms;
}

/// Taking the last element off a sequence whose last element none of the
/// others stands below is a step of production.
pub proof fn lemma_pop_yields<T: Ord>(s: Seq<T>)
    requires
        total_order::<T>(),
        s.len() > 0,
        forall|i: int| 0 <= i < s.len() - 1 ==> at_most(s.last(), #[trigger] s[i]),
    ensures
        yields(s.to_multiset(), Some(s.last()), s.drop_last().to_multiset()),
{
    broadcast use vstd::seq_lib::group_to_multiset_ensures;

    let m = s.to_multiset();
    assert(s.contains(s.last()));
    assert forall|y: T| m.contains(y) implies at_most(s.last(), y) by {
        assert(s.contains(y));
        let i = choose|i: int| 0 <= i < s.len() && s[i] == y;
        if i == s.len() - 1 {
            lemma_reflexive(y);
        }
    }
    assert(s.remove(s.len() - 1) =~= s.drop_last());
}

/// Nothing can be produced from no elements.
pub proof fn lemma_empty_yields<T: Ord>(s: Seq<T>)
    requires
        s.len() == 0,
    ensures
        yields(s.to_multiset(), None::<T>, s.to_multiset()),
{
    broadcast use vstd::seq_lib::group_to_multiset_ensures;
}

/// `out` lists, smallest first, the `out.len()` least elements of `before`,
/// and `after` is what is left of `before` without them.
pub open spec fn least_first<T: Ord>(out: Seq<T>, before: Multiset<T>, after: Multiset<T>) -> bool {
    &&& ascending(out)
    &&& before == out.to_multiset().add(after)
    &&& forall|i: int, y: T| 0 <= i < out.len() && after.contains(y) ==> #[trigger] at_most(out[i], y)
}

/// Nothing produced yet: the empty list is the list of the zero least elements.
pub proof fn lemma_least_first_start<T: Ord>(m: Multiset<T>)
    ensures
        least_first(Seq::<T>::empty(), m, m),
{
    broadcast use vstd::seq_lib::group_to_multiset_ensures;
    broadcast use vstd::multiset::group_multiset_axioms;

    assert(Seq::<T>::empty().to_multiset().add(m) =~= m);
}

/// One more step of production extends the list of the least elements by
/// the element produced.
pub proof fn lemma_least_first_step<T: Ord>(
    out: Seq<T>,
    before: Multiset<T>,
    mid: Multiset<T>,
    x: T,
    after: Multiset<T>,
)
    requires
        total_order::<T>(),
        least_first(out, before, mid),
        yields(mid, Some(x), after),
    ensures
        least_first(out.push(x), before, after),
{
    broadcast use vstd::seq_lib::group_to_multiset_ensures;
    broadcast use vstd::multiset::group_multiset_axioms;

    let longer = out.push(x);
    assert forall|i: int, j: int| 0 <= i < j < longer.len() implies at_most(longer[i], longer[j]) by {
        if j == out.len() {
            assert(at_most(out[i], x));
        } else {
            assert(at_most(out[i], out[j]));
        }
    }
    assert(before =~= longer.to_multiset().add(after));
    assert forall|i: int, y: T| 0 <= i < longer.len() && after.contains(y) implies #[trigger] at_most(
        longer[i],
        y,
    ) by {
        assert(mid.contains(y));
        if i < out.len() {
            assert(at_most(out[i], y));
        }
    }
}

/// With nothing left, the list holds every element.
pub proof fn lemma_least_first_all<T: Ord>(out: Seq<T>, before: Multiset<T>, after: Multiset<T>)
    requires
        least_first(out, before, after),
        after.len() == 0,
    ensures
        ascending(out),
        out.to_multiset() == before,
{
    broadcast use vstd::multiset::group_multiset_axioms;

    assert(after =~= Multiset::empty());
    assert(out.to_multiset().add(after) =~= out.to_multiset());
}

} // verus!
