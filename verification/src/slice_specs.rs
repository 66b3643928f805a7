//! What this crate relies on for std's slice methods that `vstd` leaves unspecified.

use vstd::prelude::*;

verus! {

/// `<[T]>::swap` exchanges the elements at `a` and `b` and touches nothing
/// else. It panics when an index is out of bounds, which `requires` excludes.
pub assume_specification<Elem>[ <[Elem]>::swap ](s: &mut [Elem], a: usize, b: usize)
    requires
        a < old(s)@.len(),
        b < old(s)@.len(),
    ensures
        final(s)@ == old(s)@.update(a as int, old(s)@[b as int]).update(b as int, old(s)@[a as int]),
;

/// Exchanging two elements of a sequence keeps its multiset.
pub proof fn lemma_swap_multiset<T>(s: Seq<T>, a: int, b: int)
    requires
        0 <= a < s.len(),
        0 <= b < s.len(),
    ensures
        s.update(a, s[b]).update(b, s[a]).to_multiset() == s.to_multiset(),
        s.update(a, s[b]).update(b, s[a]).len() == s.len(),
{
    broadcast use vstd::seq_lib::group_to_multiset_ensures;
    broadcast use vstd::multiset::group_multiset_axioms;

    let t = s.update(a, s[b]);
    assert(t.to_multiset() == s.to_multiset().insert(s[b]).remove(s[a]));
    assert(t.update(b, s[a]).to_multiset() == t.to_multiset().insert(s[a]).remove(t[b]));
    assert(s.to_multiset().count(s[a]) > 0);
    assert(s.to_multiset().count(s[b]) > 0);
    assert(t.update(b, s[a]).to_multiset() =~= s.to_multiset());
}

} // verus!
