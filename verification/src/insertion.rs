//! The sort for small pools: an insertion sort, largest element first.

use vstd::prelude::*;
use crate::order::{
    total_order, above, at_most, equiv, descending, is_above, lemma_total, lemma_transitive,
    lemma_equiv_transitive,
};
use crate::slice_specs::lemma_swap_multiset;

verus! {

/// The elements of `s` that rank equal to `x`, in the order in which `s` holds them.
pub open spec fn ranked_with<T: Ord>(s: Seq<T>, x: T) -> Seq<T> {
    s.filter(|y: T| equiv(y, x))
}

/// Exchanging two neighbours that do not rank equal leaves every run of
/// equal-ranking elements as it was.
proof fn lemma_swap_keeps_ranked<T: Ord>(s: Seq<T>, j: int, x: T)
    requires
        total_order::<T>(),
        0 < j < s.len(),
        !equiv(s[j], s[j - 1]),
    ensures
        ranked_with(s.update(j, s[j - 1]).update(j - 1, s[j]), x) == ranked_with(s, x),
{
    let p = |y: T| equiv(y, x);
    let t = s.update(j, s[j - 1]).update(j - 1, s[j]);
    let pre = s.subrange(0, j - 1);
    let post = s.subrange(j + 1, s.len() as int);
    let mid = seq![s[j - 1], s[j]];
    let dim = seq![s[j], s[j - 1]];
    assert(s =~= pre + mid + post);
    assert(t =~= pre + dim + post);
    Seq::filter_distributes_over_add(pre + mid, post, p);
    Seq::filter_distributes_over_add(pre, mid, p);
    Seq::filter_distributes_over_add(pre + dim, post, p);
    Seq::filter_distributes_over_add(pre, dim, p);
    assert(mid.filter(p) == dim.filter(p)) by {
        reveal_with_fuel(Seq::filter, 3);
        assert(mid.drop_last() =~= seq![s[j - 1]]);
        assert(dim.drop_last() =~= seq![s[j]]);
        assert(seq![s[j - 1]].drop_last() =~= Seq::<T>::empty());
        assert(seq![s[j]].drop_last() =~= Seq::<T>::empty());
        if p(s[j]) && p(s[j - 1]) {
            lemma_total(s[j - 1], x);
            lemma_equiv_transitive(s[j], x, s[j - 1]);
        }
    }
}

/// Sorts `v` in place, largest element first. Elements that rank equal keep
/// the order they came in.
pub fn insertion_sort<T: Ord>(v: &mut [T])
    requires
        total_order::<T>(),
    ensures
        descending(final(v)@),
        final(v)@.to_multiset() == old(v)@.to_multiset(),
        final(v)@.len() == old(v)@.len(),
        forall|x: T| #[trigger] ranked_with(final(v)@, x) == ranked_with(old(v)@, x),
{
    let len = v.len();
    let mut i: usize = 1;
    while i < len
        invariant
            total_order::<T>(),
            v@.len() == len,
            1 <= i,
            forall|a: int, b: int| 0 <= a < b < i && b < len ==> at_most(v@[b], v@[a]),
            v@.to_multiset() == old(v)@.to_multiset(),
            forall|x: T| #[trigger] ranked_with(v@, x) == ranked_with(old(v)@, x),
        decreases len - i,
    {
        let mut j = i;
        while j > 0 && is_above(&v[j], &v[j - 1])
            invariant
                total_order::<T>(),
                v@.len() == len,
                0 <= j <= i < len,
                forall|a: int, b: int| 0 <= a < b <= i && a != j && b != j ==> at_most(v@[b], v@[a]),
                forall|b: int| j < b <= i ==> above(v@[j as int], v@[b]),
                v@.to_multiset() == old(v)@.to_multiset(),
                forall|x: T| #[trigger] ranked_with(v@, x) == ranked_with(old(v)@, x),
            decreases j,
        {
            proof {
                let s = v@;
                let k = j as int;
                lemma_total(s[k], s[k - 1]);
                lemma_swap_multiset(s, k, k - 1);
                assert forall|x: T|
                    #[trigger] ranked_with(s.update(k, s[k - 1]).update(k - 1, s[k]), x)
                        == ranked_with(s, x) by {
                    lemma_swap_keeps_ranked(s, k, x);
                }
            }
            v.swap(j, j - 1);
            j -= 1;
        }
        proof {
            let s = v@;
            let k = j as int;
            assert forall|a: int, b: int| 0 <= a < b <= i implies at_most(s[b], s[a]) by {
                if a == k {
                    lemma_total(s[k], s[b]);
                } else if b == k {
                    if a < k - 1 {
                        lemma_transitive(s[k], s[k - 1], s[a]);
                    }
                }
            }
        }
        i += 1;
    }
}

} // verus!
