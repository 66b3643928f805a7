//! The lazy quicksort: a pool is partitioned only when an element is asked
//! for, and only as far as producing that element needs.
//!
//! Elements come out smallest first.

use vstd::prelude::*;
use vstd::multiset::Multiset;
use crate::order::{
    total_order, above, at_most, ascending, descending, lemma_total, lemma_transitive,
};
use crate::insertion::{insertion_sort, ranked_with};
use crate::partition::partition_by_last;
use crate::protocol::{
    yields, least_first, lemma_yields_count, lemma_pop_yields, lemma_empty_yields,
    lemma_least_first_start, lemma_least_first_step, lemma_least_first_all,
};
use crate::slice_specs::lemma_swap_multiset;

verus! {

/// The longest pool that is sorted at once instead of being partitioned.
pub const SMALL_POOL: usize = 32;

/// The state of a lazy quicksort over the elements not yet produced.
#[derive(Debug)]
pub enum QuickSortInternal<T> {
    /// A pool sorted largest first: the next element is its last.
    Base(Vec<T>),
    /// A pool that is partitioned on demand.
    Recursive(Recursive<T>),
}

/// A pool together with the state that covers what was split off it.
///
/// While `less` is there, the last element of `greater` is the pivot of the
/// split: `less` holds nothing above it and `greater` nothing below it.
#[derive(Debug)]
pub struct Recursive<T> {
    pub greater: Vec<T>,
    pub less: Option<Box<QuickSortInternal<T>>>,
}

/// A step of what was split off a pool is a step of the whole, as long as
/// the pool ends in the pivot: nothing split off stands above the pivot and
/// nothing in the pool below it.
proof fn lemma_chain_yields<T: Ord>(g: Seq<T>, l: Multiset<T>, x: T, rest: Multiset<T>)
    requires
        total_order::<T>(),
        g.len() >= 1,
        forall|y: T| l.contains(y) ==> at_most(y, g.last()),
        forall|i: int| 0 <= i < g.len() - 1 ==> at_most(g.last(), #[trigger] g[i]),
        yields(l, Some(x), rest),
    ensures
        yields(g.to_multiset().add(l), Some(x), g.to_multiset().add(rest)),
        forall|y: T| rest.contains(y) ==> at_most(y, g.last()),
        rest.len() + 1 == l.len(),
{
    broadcast use vstd::seq_lib::group_to_multiset_ensures;
    broadcast use vstd::multiset::group_multiset_axioms;

    let whole = g.to_multiset().add(l);
    assert forall|y: T| whole.contains(y) implies at_most(x, y) by {
        if g.to_multiset().contains(y) {
            assert(g.contains(y));
            let i = choose|i: int| 0 <= i < g.len() && g[i] == y;
            if i < g.len() - 1 {
                lemma_transitive(x, g.last(), y);
            }
        }
    }
    assert(g.to_multiset().add(rest) =~= whole.remove(x));
    assert forall|y: T| rest.contains(y) implies at_most(y, g.last()) by {
        assert(l.contains(y));
    }
}

impl<T: Ord> QuickSortInternal<T> {
    /// The elements not yet produced.
    pub open spec fn view(self) -> Multiset<T>
        decreases self,
    {
        match self {
            QuickSortInternal::Base(v) => v@.to_multiset(),
            QuickSortInternal::Recursive(r) => r@,
        }
    }

    /// A `Base` pool is sorted largest first; a `Recursive` one is well formed.
    pub open spec fn wf(self) -> bool
        decreases self,
    {
        match self {
            QuickSortInternal::Base(v) => descending(v@),
            QuickSortInternal::Recursive(r) => r.wf(),
        }
    }

    /// One step of production, as the state sees it: a `Base` pool gives up
    /// its last element; a `Recursive` one stays `Recursive` and steps as
    /// `Recursive::steps_to` says.
    pub open spec fn steps_to(self, r: Option<T>, after: Self) -> bool {
        match self {
            QuickSortInternal::Base(v) => {
                after matches QuickSortInternal::Base(w) && if v@.len() == 0 {
                    r is None && w@ == v@
                } else {
                    r == Some(v@.last()) && w@ == v@.drop_last()
                }
            },
            QuickSortInternal::Recursive(rec) => {
                after matches QuickSortInternal::Recursive(next) && rec.steps_to(r, next)
            },
        }
    }

    /// A pool of at most `SMALL_POOL` elements is sorted at once, largest
    /// first and keeping the order of elements that rank equal; a longer one
    /// is kept as it is, to be partitioned on demand.
    pub fn new(v: Vec<T>) -> (r: Self)
        requires
            total_order::<T>(),
        ensures
            r.wf(),
            r@ == v@.to_multiset(),
            match r {
                QuickSortInternal::Base(b) => {
                    &&& v@.len() <= SMALL_POOL
                    &&& forall|x: T| #[trigger] ranked_with(b@, x) == ranked_with(v@, x)
                },
                QuickSortInternal::Recursive(rec) => {
                    &&& v@.len() > SMALL_POOL
                    &&& rec.greater@ == v@
                    &&& rec.less is None
                },
            },
    {
        let mut v = v;
        if v.len() <= SMALL_POOL {
            insertion_sort(v.as_mut_slice());
            QuickSortInternal::Base(v)
        } else {
            QuickSortInternal::Recursive(Recursive::new(v))
        }
    }

    /// The number of elements not yet produced, as both bounds.
    pub fn size_hint(&self) -> (r: (usize, Option<usize>))
        requires
            self.wf(),
        ensures
            r.0 == self@.len(),
            r.1 == Some(r.0),
        decreases self,
    {
        match self {
            QuickSortInternal::Base(v) => {
                proof {
                    vstd::seq_lib::to_multiset_len(v@);
                }
                (v.len(), Some(v.len()))
            },
            QuickSortInternal::Recursive(r) => r.size_hint(),
        }
    }

    /// Produces a least element of those that remain, or `None` when none remains.
    pub fn next(&mut self) -> (r: Option<T>)
        requires
            total_order::<T>(),
            old(self).wf(),
        ensures
            final(self).wf(),
            yields(old(self)@, r, final(self)@),
            old(self).steps_to(r, *final(self)),
        decreases old(self)@.len(), 2nat,
    {
        match self {
            QuickSortInternal::Base(v) => {
                proof {
                    if v@.len() > 0 {
                        lemma_pop_yields(v@);
                    } else {
                        lemma_empty_yields(v@);
                    }
                }
                v.pop()
            },
            QuickSortInternal::Recursive(r) => r.next(),
        }
    }
}

impl<T: Ord> Recursive<T> {
    /// The elements not yet produced: those of the pool and those split off it.
    pub open spec fn view(self) -> Multiset<T>
        decreases self,
    {
        match self.less {
            None => self.greater@.to_multiset(),
            Some(l) => self.greater@.to_multiset().add(l@),
        }
    }

    /// What was split off is well formed and holds nothing above the pivot,
    /// the pool holds nothing below it, and the elements can be counted in a
    /// `usize`.
    pub open spec fn wf(self) -> bool
        decreases self,
    {
        match self.less {
            None => true,
            Some(l) => {
                &&& l.wf()
                &&& self.greater@.len() >= 1
                &&& forall|y: T| l@.contains(y) ==> at_most(y, self.greater@.last())
                &&& forall|i: int|
                    0 <= i < self.greater@.len() - 1 ==> at_most(
                        self.greater@.last(),
                        #[trigger] self.greater@[i],
                    )
                &&& self.greater@.len() + l@.len() <= usize::MAX
            },
        }
    }

    /// One split of a pool from which nothing is split off. A pool of one
    /// gives up its element. A longer one is partitioned around its middle
    /// element, the pivot: what stands above the pivot stays in the pool; if
    /// nothing else is there, the pivot is produced; else the pivot stays as
    /// the last element of the pool, the rest is split off, and the element
    /// comes from there.
    pub open spec fn splits_to(self, r: Option<T>, after: Self) -> bool {
        let len = self.greater@.len() as int;
        let pivot = self.greater@[len / 2];
        if len == 0 {
            r is None && after.less is None && after.greater@.len() == 0
        } else if len == 1 {
            r == Some(self.greater@[0]) && after.less is None && after.greater@.len() == 0
        } else {
            match after.less {
                None => {
                    &&& r == Some(pivot)
                    &&& after.greater@.len() == len - 1
                    &&& forall|i: int|
                        0 <= i < after.greater@.len() ==> above(#[trigger] after.greater@[i], pivot)
                },
                Some(l) => {
                    &&& r is Some
                    &&& at_most(r->0, pivot)
                    &&& after.greater@.last() == pivot
                    &&& after.greater@.len() + l@.len() == len - 1
                    &&& forall|i: int|
                        0 <= i < after.greater@.len() - 1 ==> above(
                            #[trigger] after.greater@[i],
                            pivot,
                        )
                },
            }
        }
    }

    /// One step of production, as the state sees it. While what was split
    /// off has elements, it produces and the pool stays as it is. Once it has
    /// none, the link to it is cleared and the pivot, the last element of the
    /// pool, is produced. With nothing split off, the pool is split.
    pub open spec fn steps_to(self, r: Option<T>, after: Self) -> bool {
        match self.less {
            None => self.splits_to(r, after),
            Some(l) => if l@.len() == 0 {
                &&& r == Some(self.greater@.last())
                &&& after.less is None
                &&& after.greater@ == self.greater@.drop_last()
            } else {
                &&& after.less matches Some(rest) && yields(l@, r, rest@)
                &&& r is Some
                &&& after.greater@ == self.greater@
            },
        }
    }

    /// A pool from which nothing has been split off yet.
    pub fn new(v: Vec<T>) -> (r: Self)
        ensures
            r.greater@ == v@,
            r.less is None,
            r.wf(),
            r@ == v@.to_multiset(),
    {
        Recursive { greater: v, less: None }
    }

    /// The number of elements not yet produced, as both bounds.
    pub fn size_hint(&self) -> (r: (usize, Option<usize>))
        requires
            self.wf(),
        ensures
            r.0 == self@.len(),
            r.1 == Some(r.0),
        decreases self,
    {
        proof {
            vstd::seq_lib::to_multiset_len(self.greater@);
        }
        match &self.less {
            None => (self.greater.len(), Some(self.greater.len())),
            Some(less) => {
                let (lower, upper) = less.size_hint();
                (
                    lower + self.greater.len(),
                    match upper {
                        Some(upper) => Some(upper + self.greater.len()),
                        None => None,
                    },
                )
            },
        }
    }

    /// Produces the next element of a pool from which nothing is split off:
    /// the only element of a pool of one; else the pool is partitioned
    /// around its middle element, and what does not stand above that pivot,
    /// if there is any, is split off and produces the element, while the
    /// pivot stays behind as the last element of the pool.
    fn split_greater(&mut self) -> (r: Option<T>)
        requires
            total_order::<T>(),
            old(self).wf(),
            old(self).less is None,
        ensures
            final(self).wf(),
            yields(old(self)@, r, final(self)@),
            old(self).splits_to(r, *final(self)),
        decreases old(self)@.len(), 0nat,
    {
        let len = self.greater.len();
        proof {
            vstd::seq_lib::to_multiset_len(self.greater@);
        }
        if len == 0 {
            proof {
                lemma_empty_yields(self.greater@);
            }
            None
        } else if len == 1 {
            proof {
                lemma_pop_yields(self.greater@);
            }
            self.greater.pop()
        } else {
            let ghost pool = self.greater@;
            let pivot_idx = len - 1;
            let mid_idx = len / 2;
            self.greater.swap(pivot_idx, mid_idx);
            let split_idx = partition_by_last(self.greater.as_mut_slice());
            let ghost parted = self.greater@;
            self.greater.swap(pivot_idx, split_idx);
            let ghost placed = self.greater@;
            let ghost pivot = placed[split_idx as int];
            proof {
                lemma_swap_multiset(pool, pivot_idx as int, mid_idx as int);
                lemma_swap_multiset(parted, pivot_idx as int, split_idx as int);
                assert(placed.to_multiset() == pool.to_multiset());
                assert forall|i: int| 0 <= i < split_idx implies above(#[trigger] placed[i], pivot) by {
                    assert(placed[i] == parted[i]);
                }
                assert forall|i: int| split_idx < i < len implies at_most(
                    #[trigger] placed[i],
                    pivot,
                ) by {
                    if i == pivot_idx {
                        assert(placed[i] == parted[split_idx as int]);
                    } else {
                        assert(placed[i] == parted[i]);
                    }
                }
            }
            let split_off_idx = split_idx + 1;
            if split_off_idx < self.greater.len() {
                let tail = self.greater.split_off(split_off_idx);
                let ghost g = self.greater@;
                proof {
                    assert(placed =~= g + tail@);
                    vstd::seq_lib::lemma_multiset_commutative(g, tail@);
                    vstd::seq_lib::to_multiset_len(tail@);
                    vstd::seq_lib::to_multiset_len(g);
                    assert(g.last() == pivot);
                    assert forall|y: T| tail@.to_multiset().contains(y) implies at_most(y, pivot) by {
                        vstd::seq_lib::to_multiset_contains(tail@, y);
                        let i = choose|i: int| 0 <= i < tail@.len() && tail@[i] == y;
                        assert(placed[split_off_idx + i] == y);
                    }
                    assert forall|i: int| 0 <= i < g.len() - 1 implies above(#[trigger] g[i], pivot) by {
                        assert(g[i] == placed[i]);
                    }
                    assert forall|i: int| 0 <= i < g.len() - 1 implies at_most(
                        g.last(),
                        #[trigger] g[i],
                    ) by {
                        lemma_total(g[i], pivot);
                    }
                }
                let mut less = Box::new(QuickSortInternal::new(tail));
                let ghost split = less@;
                let next = less.next();
                self.less = Some(less);
                proof {
                    lemma_chain_yields(g, split, next->0, self.less->0@);
                }
                next
            } else {
                proof {
                    assert forall|i: int| 0 <= i < placed.len() - 1 implies at_most(
                        placed.last(),
                        #[trigger] placed[i],
                    ) by {
                        lemma_total(placed[i], pivot);
                    }
                    lemma_pop_yields(placed);
                }
                self.greater.pop()
            }
        }
    }

    /// Produces a least element of those that remain, or `None` when none
    /// remains. What was split off is drained first, then the pivot follows;
    /// with nothing split off, the pool is split.
    pub fn next(&mut self) -> (r: Option<T>)
        requires
            total_order::<T>(),
            old(self).wf(),
        ensures
            final(self).wf(),
            yields(old(self)@, r, final(self)@),
            old(self).steps_to(r, *final(self)),
        decreases old(self)@.len(), 1nat,
    {
        proof {
            vstd::seq_lib::to_multiset_len(self.greater@);
        }
        let ghost before = *self;
        let next = match &mut self.less {
            Some(less) => less.next(),
            None => {
                return self.split_greater();
            },
        };
        if next.is_some() {
            proof {
                lemma_chain_yields(self.greater@, before.less->0@, next->0, self.less->0@);
            }
            next
        } else {
            self.less = None;
            proof {
                broadcast use vstd::multiset::group_multiset_axioms;

                assert(before.less->0@ =~= Multiset::empty());
                assert(old(self)@ =~= self.greater@.to_multiset());
                lemma_pop_yields(self.greater@);
            }
            self.greater.pop()
        }
    }
}

/// A lazy quicksort over the elements it was made from: each call of `next`
/// produces a least element of those that remain, so the elements come out
/// smallest first.
#[derive(Debug)]
pub struct QuickSort<T> {
    inner: QuickSortInternal<T>,
}

impl<T: Ord> QuickSort<T> {
    /// The state of the sort.
    pub closed spec fn inner(self) -> QuickSortInternal<T> {
        self.inner
    }

    /// The order of `T` is total and the state is well formed. Every sort
    /// that `new` makes is, and `next` keeps it so.
    pub open spec fn wf(self) -> bool {
        total_order::<T>() && self.inner().wf()
    }

    /// The elements not yet produced.
    pub open spec fn view(self) -> Multiset<T> {
        self.inner()@
    }

    /// A lazy sort of the elements of `v`, which starts in the state that
    /// `QuickSortInternal::new` makes of them: sorted at once if they are at
    /// most `SMALL_POOL`.
    pub fn new(v: Vec<T>) -> (r: Self)
        requires
            total_order::<T>(),
        ensures
            r.wf(),
            r@ == v@.to_multiset(),
            r.inner() is Base <==> v@.len() <= SMALL_POOL,
            r.inner() matches QuickSortInternal::Recursive(rec) ==> rec.greater@ == v@
                && rec.less is None,
    {
        QuickSort { inner: QuickSortInternal::new(v) }
    }

    /// Produces a least element of those that remain, or `None` when none
    /// remains, also when asked again.
    pub fn next(&mut self) -> (r: Option<T>)
        requires
            old(self).wf(),
        ensures
            final(self).wf(),
            yields(old(self)@, r, final(self)@),
            old(self).inner().steps_to(r, final(self).inner()),
            r is None <==> old(self)@.len() == 0,
            r is Some ==> final(self)@.len() + 1 == old(self)@.len(),
    {
        let r = self.inner.next();
        proof {
            lemma_yields_count(old(self)@, r, self@);
        }
        r
    }

    /// The number of elements not yet produced, as both bounds.
    pub fn size_hint(&self) -> (r: (usize, Option<usize>))
        requires
            self.wf(),
        ensures
            r.0 == self@.len(),
            r.1 == Some(r.0),
    {
        self.inner.size_hint()
    }

    /// Produces the `n` least elements that remain, smallest first, or all
    /// that remain if they are fewer.
    pub fn take(&mut self, n: usize) -> (out: Vec<T>)
        requires
            old(self).wf(),
        ensures
            final(self).wf(),
            least_first(out@, old(self)@, final(self)@),
            out@.len() == n || (out@.len() < n && final(self)@.len() == 0),
    {
        let mut out: Vec<T> = Vec::new();
        proof {
            lemma_least_first_start(self@);
        }
        while out.len() < n
            invariant
                self.wf(),
                least_first(out@, old(self)@, self@),
                out@.len() <= n,
            decreases n - out@.len(),
        {
            let ghost mid = self@;
            match self.next() {
                Some(x) => {
                    proof {
                        lemma_least_first_step(out@, old(self)@, mid, x, self@);
                    }
                    out.push(x);
                },
                None => {
                    return out;
                },
            }
        }
        out
    }

    /// Produces all the elements that remain, smallest first.
    pub fn collect(self) -> (out: Vec<T>)
        requires
            self.wf(),
        ensures
            ascending(out@),
            out@.to_multiset() == self@,
    {
        let mut rest = self;
        let mut out: Vec<T> = Vec::new();
        proof {
            lemma_least_first_start(self@);
        }
        loop
            invariant
                rest.wf(),
                least_first(out@, self@, rest@),
            ensures
                least_first(out@, self@, rest@),
                rest@.len() == 0,
            decreases rest@.len(),
        {
            let ghost mid = rest@;
            match rest.next() {
                Some(x) => {
                    proof {
                        lemma_least_first_step(out@, self@, mid, x, rest@);
                    }
                    out.push(x);
                },
                None => {
                    break ;
                },
            }
        }
        proof {
            lemma_least_first_all(out@, self@, rest@);
        }
        out
    }
}

/// Every clone of a `T` is the value it was cloned from.
pub open spec fn faithful_clone<T: Clone>() -> bool {
    forall|a: T, b: T| #[trigger] cloned::<T>(a, b) ==> a == b
}

/// `b` has the shape of `a`, and each element of `b` is a clone of the
/// element of `a` in its place.
pub open spec fn mirrors<T: Ord + Clone>(a: QuickSortInternal<T>, b: QuickSortInternal<T>) -> bool
    decreases a,
{
    match (a, b) {
        (QuickSortInternal::Base(v), QuickSortInternal::Base(w)) => pool_mirrors(v@, w@),
        (QuickSortInternal::Recursive(r), QuickSortInternal::Recursive(s)) => {
            &&& pool_mirrors(r.greater@, s.greater@)
            &&& match (r.less, s.less) {
                (None, None) => true,
                (Some(k), Some(l)) => mirrors(*k, *l),
                _ => false,
            }
        },
        _ => false,
    }
}

/// `w` is as long as `v`, and each element of `w` is a clone of the element
/// of `v` in its place.
pub open spec fn pool_mirrors<T: Clone>(v: Seq<T>, w: Seq<T>) -> bool {
    &&& v.len() == w.len()
    &&& forall|i: int| 0 <= i < v.len() ==> cloned::<T>(#[trigger] v[i], w[i])
}

/// Where clones are faithful, a state that mirrors another holds the same
/// elements and is well formed if the other is.
pub proof fn lemma_mirror_is_same<T: Ord + Clone>(a: QuickSortInternal<T>, b: QuickSortInternal<T>)
    requires
        faithful_clone::<T>(),
        mirrors(a, b),
    ensures
        b@ == a@,
        a.wf() ==> b.wf(),
    decreases a,
{
    match (a, b) {
        (QuickSortInternal::Base(v), QuickSortInternal::Base(w)) => {
            assert(v@ =~= w@);
        },
        (QuickSortInternal::Recursive(r), QuickSortInternal::Recursive(s)) => {
            assert(r.greater@ =~= s.greater@);
            match (r.less, s.less) {
                (Some(k), Some(l)) => {
                    lemma_mirror_is_same(*k, *l);
                },
                _ => {},
            }
        },
        _ => {},
    }
}

impl<T: Ord + Clone> Clone for QuickSortInternal<T> {
    /// The same state over clones of the elements.
    fn clone(&self) -> (res: Self)
        ensures
            mirrors(*self, res),
        decreases self,
    {
        match self {
            QuickSortInternal::Base(v) => QuickSortInternal::Base(v.clone()),
            QuickSortInternal::Recursive(r) => QuickSortInternal::Recursive(
                Recursive {
                    greater: r.greater.clone(),
                    less: match &r.less {
                        Some(l) => Some(Box::new((&**l).clone())),
                        None => None,
                    },
                },
            ),
        }
    }
}

impl<T: Ord + Clone> Clone for Recursive<T> {
    /// The same pool and the same state split off it, over clones of the
    /// elements.
    fn clone(&self) -> (res: Self)
        ensures
            pool_mirrors(self.greater@, res.greater@),
            match (self.less, res.less) {
                (None, None) => true,
                (Some(k), Some(l)) => mirrors(*k, *l),
                _ => false,
            },
    {
        Recursive {
            greater: self.greater.clone(),
            less: match &self.less {
                Some(l) => Some(Box::new((&**l).clone())),
                None => None,
            },
        }
    }
}

impl<T: Ord + Clone> Clone for QuickSort<T> {
    /// A sort in the same state over clones of the elements. Where clones
    /// are faithful it holds the same elements and is well formed if `self`
    /// is.
    fn clone(&self) -> (res: Self)
        ensures
            faithful_clone::<T>() ==> res@ == self@ && (self.wf() ==> res.wf()),
    {
        let inner = self.inner.clone();
        proof {
            if faithful_clone::<T>() {
                lemma_mirror_is_same(self.inner, inner);
            }
        }
        QuickSort { inner }
    }
}

} // verus!
