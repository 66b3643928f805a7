//! The lazy heapsort: a binary heap over all the elements, topped by the one
//! that ranks highest in the reverse order, which is the smallest.
//!
//! Elements come out smallest first.

use vstd::prelude::*;
use vstd::multiset::Multiset;
use crate::order::{
    total_order, at_most, ascending, lemma_total, lemma_transitive, lemma_reflexive,
};
use crate::protocol::{
    yields, least_first, lemma_yields_count, lemma_least_first_start, lemma_least_first_step,
    lemma_least_first_all,
};
use crate::reverse::{ReverseOrder, ranks_over};
use crate::slice_specs::lemma_swap_multiset;

verus! {

/// The elements that `s` holds, unwrapped.
pub open spec fn items<T>(s: Seq<ReverseOrder<T>>) -> Seq<T> {
    s.map_values(|r: ReverseOrder<T>| r.0)
}

/// The index of the node above node `i`.
pub open spec fn parent(i: int) -> int {
    (i - 1) / 2
}

/// From node `start` on, no node ranks over the node above it.
pub open spec fn heap_from<T: Ord>(s: Seq<ReverseOrder<T>>, start: int) -> bool {
    forall|i: int| 1 <= i < s.len() && parent(i) >= start ==> !ranks_over(#[trigger] s[i], s[parent(i)])
}

/// No node ranks over the node above it.
pub open spec fn is_heap<T: Ord>(s: Seq<ReverseOrder<T>>) -> bool {
    heap_from(s, 0)
}

/// Exchanging two nodes keeps the elements.
proof fn lemma_swap_items<T>(s: Seq<ReverseOrder<T>>, a: int, b: int)
    requires
        0 <= a < s.len(),
        0 <= b < s.len(),
    ensures
        items(s.update(a, s[b]).update(b, s[a])).to_multiset() == items(s).to_multiset(),
{
    let t = items(s);
    lemma_swap_multiset(t, a, b);
    assert(items(s.update(a, s[b]).update(b, s[a])) =~= t.update(a, t[b]).update(b, t[a]));
}

/// In a heap no element stands below the top one.
proof fn lemma_top_is_least<T: Ord>(s: Seq<ReverseOrder<T>>, i: int)
    requires
        total_order::<T>(),
        is_heap(s),
        0 <= i < s.len(),
    ensures
        at_most(s[0].0, s[i].0),
    decreases i,
{
    if i == 0 {
        lemma_reflexive(s[0].0);
    } else {
        lemma_top_is_least(s, parent(i));
        lemma_total(s[parent(i)].0, s[i].0);
        lemma_transitive(s[0].0, s[parent(i)].0, s[i].0);
    }
}

/// Lets the node at `start` sink until neither node below it ranks over it.
fn sift_down<T: Ord>(heap: &mut Vec<ReverseOrder<T>>, start: usize)
    requires
        total_order::<T>(),
        start < old(heap)@.len(),
        heap_from(old(heap)@, start + 1),
    ensures
        heap_from(final(heap)@, start as int),
        final(heap)@.len() == old(heap)@.len(),
        items(final(heap)@).to_multiset() == items(old(heap)@).to_multiset(),
{
    let n = heap.len();
    let mut pos = start;
    while pos < n / 2
        invariant
            total_order::<T>(),
            heap@.len() == n,
            old(heap)@.len() == n,
            start <= pos < n,
            items(heap@).to_multiset() == items(old(heap)@).to_multiset(),
            forall|i: int|
                1 <= i < n && parent(i) >= start && parent(i) != pos ==> !ranks_over(
                    #[trigger] heap@[i],
                    heap@[parent(i)],
                ),
            pos != start ==> forall|i: int|
                1 <= i < n && parent(i) == pos ==> !ranks_over(
                    #[trigger] heap@[i],
                    heap@[parent(pos as int)],
                ),
        decreases n - pos,
    {
        let mut child = 2 * pos + 1;
        if child + 1 < n && heap[child + 1].outranks(&heap[child]) {
            child = child + 1;
        }
        let ghost s = heap@;
        proof {
            lemma_total(s[2 * pos + 1].0, s[child as int].0);
            if 2 * pos + 2 < n {
                lemma_total(s[2 * pos + 2].0, s[child as int].0);
            }
            lemma_reflexive(s[child as int].0);
        }
        if !heap[child].outranks(&heap[pos]) {
            proof {
                assert forall|i: int| 1 <= i < n && parent(i) == pos implies !ranks_over(
                    #[trigger] s[i],
                    s[pos as int],
                ) by {
                    lemma_total(s[child as int].0, s[pos as int].0);
                    lemma_transitive(s[pos as int].0, s[child as int].0, s[i].0);
                }
            }
            return ;
        }
        heap.swap(pos, child);
        proof {
            lemma_swap_items(s, pos as int, child as int);
            let t = heap@;
            lemma_total(s[pos as int].0, s[child as int].0);
            assert forall|i: int|
                1 <= i < n && parent(i) >= start && parent(i) != child implies !ranks_over(
                #[trigger] t[i],
                t[parent(i)],
            ) by {
                if parent(i) == pos {
                } else if i == pos {
                    assert(!ranks_over(s[child as int], s[parent(pos as int)]));
                } else {
                    assert(!ranks_over(s[i], s[parent(i)]));
                }
            }
            assert forall|i: int| 1 <= i < n && parent(i) == child implies !ranks_over(
                #[trigger] t[i],
                t[parent(child as int)],
            ) by {
                assert(!ranks_over(s[i], s[parent(i)]));
            }
        }
        pos = child;
    }
    proof {
        assert forall|i: int| 1 <= i < n && parent(i) >= start implies !ranks_over(
            #[trigger] heap@[i],
            heap@[parent(i)],
        ) by {
            assert(parent(i) != pos);
        }
    }
}

/// A lazy heapsort over the elements it was made from: each call of `next`
/// produces a least element of those that remain, so the elements come out
/// smallest first.
#[derive(Debug)]
pub struct HeapSort<T> {
    heap: Vec<ReverseOrder<T>>,
}

impl<T: Ord> HeapSort<T> {
    /// The nodes of the heap, the top one first and the two nodes below node
    /// `i` at `2 * i + 1` and `2 * i + 2`.
    pub closed spec fn nodes(self) -> Seq<ReverseOrder<T>> {
        self.heap@
    }

    /// The order of `T` is total and the elements form a heap. Every sort
    /// that `new` makes is well formed, and `next` keeps it so.
    pub open spec fn wf(self) -> bool {
        total_order::<T>() && is_heap(self.nodes())
    }

    /// The elements not yet produced.
    pub open spec fn view(self) -> Multiset<T> {
        items(self.nodes()).to_multiset()
    }

    /// A lazy sort of the elements of `v`: all of them are gathered in a heap.
    pub fn new(v: Vec<T>) -> (r: Self)
        requires
            total_order::<T>(),
        ensures
            r.wf(),
            r@ == v@.to_multiset(),
    {
        let mut v = v;
        let mut heap: Vec<ReverseOrder<T>> = Vec::with_capacity(v.len());
        let ghost all = v@;
        proof {
            assert(items(heap@) =~= Seq::<T>::empty());
            assert(all =~= v@ + items(heap@).reverse());
        }
        while v.len() > 0
            invariant
                all == v@ + items(heap@).reverse(),
            decreases v@.len(),
        {
            let ghost before = heap@;
            let ghost rest = v@;
            let x = v.pop().unwrap();
            heap.push(ReverseOrder(x));
            proof {
                assert(items(heap@) =~= items(before).push(x));
                assert(items(heap@).reverse() =~= seq![x] + items(before).reverse());
                assert(rest =~= v@ + seq![x]);
                assert(all =~= v@ + items(heap@).reverse());
            }
        }
        proof {
            assert(all =~= items(heap@).reverse());
            items(heap@).lemma_reverse_to_multiset();
        }
        let n = heap.len();
        let mut start = n / 2;
        while start > 0
            invariant
                total_order::<T>(),
                heap@.len() == n,
                start <= n / 2,
                heap_from(heap@, start as int),
                items(heap@).to_multiset() == all.to_multiset(),
            decreases start,
        {
            start -= 1;
            sift_down(&mut heap, start);
        }
        HeapSort { heap }
    }

    /// Produces a least element of those that remain, or `None` when none
    /// remains, also when asked again.
    pub fn next(&mut self) -> (r: Option<T>)
        requires
            old(self).wf(),
        ensures
            final(self).wf(),
            yields(old(self)@, r, final(self)@),
            r == if old(self).nodes().len() == 0 {
                None
            } else {
                Some(old(self).nodes()[0].0)
            },
            r is None <==> old(self)@.len() == 0,
            r is Some ==> final(self)@.len() + 1 == old(self)@.len(),
    {
        let n = self.heap.len();
        if n == 0 {
            proof {
                broadcast use vstd::seq_lib::group_to_multiset_ensures;
            }
            return None;
        }
        let ghost s = self.heap@;
        self.heap.swap(0, n - 1);
        let ghost swapped = self.heap@;
        let top = self.heap.pop().unwrap();
        let ghost rest = self.heap@;
        proof {
            broadcast use vstd::seq_lib::group_to_multiset_ensures;

            lemma_swap_items(s, 0, n - 1);
            assert(items(swapped).remove(n - 1) =~= items(rest));
            assert(items(swapped)[n - 1] == top.0);
            assert(items(s).contains(top.0)) by {
                assert(items(s)[0] == top.0);
            }
            assert forall|y: T| items(s).to_multiset().contains(y) implies at_most(top.0, y) by {
                assert(items(s).contains(y));
                let i = choose|i: int| 0 <= i < items(s).len() && items(s)[i] == y;
                lemma_top_is_least(s, i);
            }
            assert forall|i: int| 1 <= i < rest.len() && parent(i) >= 1 implies !ranks_over(
                #[trigger] rest[i],
                rest[parent(i)],
            ) by {
                assert(!ranks_over(s[i], s[parent(i)]));
            }
        }
        if n > 1 {
            sift_down(&mut self.heap, 0);
        }
        proof {
            lemma_yields_count(old(self)@, Some(top.0), self@);
        }
        Some(top.0)
    }

    /// The number of elements not yet produced, as both bounds.
    pub fn size_hint(&self) -> (r: (usize, Option<usize>))
        ensures
            r.0 == self@.len(),
            r.1 == Some(r.0),
    {
        proof {
            vstd::seq_lib::to_multiset_len(items(self.heap@));
        }
        let len = self.heap.len();
        (len, Some(len))
    }

    /// Produces the `n` least elements that remain, smallest first, or all
    /// that remain if they are fewer.
    pub fn take(&mut self, n: usize) -> (out: Vec<T>)
        requires
            old(self).wf(),
        ensures
            final(self).wf(),
            least_first(out@, old(self)@, final(self)@),
            out@.len() == n || (out@.len() < n && final(self)@.len() == 0),
    {
        let mut out: Vec<T> = Vec::new();
        proof {
            lemma_least_first_start(self@);
        }
        while out.len() < n
            invariant
                self.wf(),
                least_first(out@, old(self)@, self@),
                out@.len() <= n,
            decreases n - out@.len(),
        {
            let ghost mid = self@;
            match self.next() {
                Some(x) => {
                    proof {
                        lemma_least_first_step(out@, old(self)@, mid, x, self@);
                    }
                    out.push(x);
                },
                None => {
                    return out;
                },
            }
        }
        out
    }

    /// Produces all the elements that remain, smallest first.
    pub fn collect(self) -> (out: Vec<T>)
        requires
            self.wf(),
        ensures
            ascending(out@),
            out@.to_multiset() == self@,
    {
        let mut rest = self;
        let mut out: Vec<T> = Vec::new();
        proof {
            lemma_least_first_start(self@);
        }
        loop
            invariant
                rest.wf(),
                least_first(out@, self@, rest@),
            ensures
                least_first(out@, self@, rest@),
                rest@.len() == 0,
            decreases rest@.len(),
        {
            let ghost mid = rest@;
            match rest.next() {
                Some(x) => {
                    proof {
                        lemma_least_first_step(out@, self@, mid, x, rest@);
                    }
                    out.push(x);
                },
                None => {
                    break ;
                },
            }
        }
        proof {
            lemma_least_first_all(out@, self@, rest@);
        }
        out
    }
}

} // verus!
