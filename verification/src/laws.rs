//! What follows from the contracts for whole runs of production, whichever
//! of the two sorts produces.

use vstd::prelude::*;
use vstd::multiset::Multiset;
use crate::order::{
    total_order, exact_order, at_most, equiv, ascending, is_least, lemma_reflexive, lemma_total,
    lemma_equiv_transitive,
};
use crate::protocol::{yields, least_first};

verus! {

/// The first element of a list of least elements is a least element of all.
proof fn lemma_first_is_least<T: Ord>(out: Seq<T>, before: Multiset<T>, after: Multiset<T>)
    requires
        total_order::<T>(),
        least_first(out, before, after),
        out.len() > 0,
    ensures
        is_least(out[0], before),
        least_first(out.drop_first(), before.remove(out[0]), after),
{
    broadcast use vstd::seq_lib::group_to_multiset_ensures;
    broadcast use vstd::multiset::group_multiset_axioms;

    let x = out[0];
    let tail = out.drop_first();
    assert(out.contains(x));
    assert forall|y: T| before.contains(y) implies at_most(x, y) by {
        if out.to_multiset().contains(y) {
            assert(out.contains(y));
            let i = choose|i: int| 0 <= i < out.len() && out[i] == y;
            if i == 0 {
                lemma_reflexive(x);
            }
        } else {
            assert(after.contains(y));
            assert(at_most(out[0], y));
        }
    }
    assert(out.remove(0) =~= tail);
    assert(tail.to_multiset() == out.to_multiset().remove(x));
    assert(before.remove(x) =~= tail.to_multiset().add(after));
    assert forall|i: int, j: int| 0 <= i < j < tail.len() implies at_most(tail[i], tail[j]) by {
        assert(at_most(out[i + 1], out[j + 1]));
    }
    assert forall|i: int, y: T| 0 <= i < tail.len() && after.contains(y) implies #[trigger] at_most(
        tail[i],
        y,
    ) by {
        assert(at_most(out[i + 1], y));
    }
}

/// The first `k` elements produced are the first `k` elements of the sorted
/// whole: `out`, the least elements of `before` smallest first, agrees place
/// by place with every ascending arrangement `sorted` of `before`, up to the
/// order of elements that rank equal; and exactly where no two different
/// values rank equal.
pub proof fn lemma_prefix_of_sorted<T: Ord>(
    out: Seq<T>,
    before: Multiset<T>,
    after: Multiset<T>,
    sorted: Seq<T>,
)
    requires
        total_order::<T>(),
        least_first(out, before, after),
        ascending(sorted),
        sorted.to_multiset() == before,
    ensures
        out.len() <= sorted.len(),
        forall|i: int| 0 <= i < out.len() ==> equiv(#[trigger] out[i], sorted[i]),
        exact_order::<T>() ==> out == sorted.take(out.len() as int),
    decreases out.len(),
{
    broadcast use vstd::seq_lib::group_to_multiset_ensures;

    if out.len() > 0 {
        let x = out[0];
        lemma_first_is_least(out, before, after);
        assert(sorted.contains(x));
        let j = choose|j: int| 0 <= j < sorted.len() && sorted[j] == x;
        assert forall|i: int| 0 <= i <= j implies equiv(#[trigger] sorted[i], x) by {
            assert(sorted.contains(sorted[i]));
            if i < j {
                assert(at_most(sorted[i], sorted[j]));
            } else {
                lemma_reflexive(x);
            }
            lemma_total(sorted[i], x);
        }
        let rest = sorted.remove(j);
        assert forall|a: int, b: int| 0 <= a < b < rest.len() implies at_most(rest[a], rest[b]) by {
            let a0 = if a < j { a } else { a + 1 };
            let b0 = if b < j { b } else { b + 1 };
            assert(at_most(sorted[a0], sorted[b0]));
        }
        lemma_prefix_of_sorted(out.drop_first(), before.remove(x), after, rest);
        assert forall|i: int| 0 <= i < out.len() implies equiv(#[trigger] out[i], sorted[i]) by {
            if i == 0 {
                lemma_total(sorted[0], x);
            } else {
                assert(equiv(out.drop_first()[i - 1], rest[i - 1]));
                if i - 1 < j {
                    lemma_total(sorted[i], x);
                    lemma_equiv_transitive(sorted[i - 1], x, sorted[i]);
                    lemma_equiv_transitive(out[i], sorted[i - 1], sorted[i]);
                }
            }
        }
    }
    if exact_order::<T>() {
        assert(out =~= sorted.take(out.len() as int));
    }
}

/// Both sorts produce the same: two ascending arrangements of the same
/// elements agree place by place, up to the order of elements that rank
/// equal; and exactly where no two different values rank equal.
pub proof fn lemma_sorted_agree<T: Ord>(a: Seq<T>, b: Seq<T>)
    requires
        total_order::<T>(),
        ascending(a),
        ascending(b),
        a.to_multiset() == b.to_multiset(),
    ensures
        a.len() == b.len(),
        forall|i: int| 0 <= i < a.len() ==> equiv(#[trigger] a[i], b[i]),
        exact_order::<T>() ==> a == b,
{
    broadcast use vstd::seq_lib::group_to_multiset_ensures;
    broadcast use vstd::multiset::group_multiset_axioms;

    let none = Multiset::<T>::empty();
    assert(a.to_multiset() =~= a.to_multiset().add(none));
    lemma_prefix_of_sorted(a, a.to_multiset(), none, b);
    assert(a.to_multiset().len() == a.len());
    assert(b.to_multiset().len() == b.len());
    if exact_order::<T>() {
        assert(b.take(a.len() as int) =~= b);
    }
}

/// After `out.len()` elements have been produced, as many fewer remain.
pub proof fn lemma_remaining_count<T: Ord>(out: Seq<T>, before: Multiset<T>, after: Multiset<T>)
    requires
        least_first(out, before, after),
    ensures
        after.len() == before.len() - out.len(),
{
    broadcast use vstd::seq_lib::group_to_multiset_ensures;
    broadcast use vstd::multiset::group_multiset_axioms;
}

/// From no elements nothing is produced, and nothing remains.
pub proof fn lemma_empty_input<T: Ord>(input: Seq<T>, r: Option<T>, after: Multiset<T>)
    requires
        input.len() == 0,
        yields(input.to_multiset(), r, after),
    ensures
        r is None,
        after.len() == 0,
{
    broadcast use vstd::seq_lib::group_to_multiset_ensures;
    broadcast use vstd::multiset::group_multiset_axioms;
}

/// Once nothing was produced, nothing is produced again, and the state of
/// the elements stays as it was.
pub proof fn lemma_exhausted_stays<T: Ord>(
    before: Multiset<T>,
    mid: Multiset<T>,
    r: Option<T>,
    after: Multiset<T>,
)
    requires
        yields(before, None::<T>, mid),
        yields(mid, r, after),
    ensures
        r is None,
        after == before,
        after.len() == 0,
{
    broadcast use vstd::multiset::group_multiset_axioms;
}

} // verus!
