//! Exchanging two elements of a slice.

use vstd::prelude::*;

verus! {

/// `s` with the entries at `i` and `j` exchanged.
pub open spec fn swapped<T>(s: Seq<T>, i: int, j: int) -> Seq<T> {
    s.update(i, s[j]).update(j, s[i])
}

/// Exchanging two entries keeps the elements, each as often as before.
pub proof fn lemma_swapped_multiset<T>(s: Seq<T>, i: int, j: int)
    requires
        0 <= i < s.len(),
        0 <= j < s.len(),
    ensures
        swapped(s, i, j).to_multiset() == s.to_multiset(),
{
    broadcast use vstd::multiset::group_multiset_axioms;
    broadcast use vstd::seq_lib::to_multiset_contains;

    let t = s.update(i, s[j]);
    vstd::seq_lib::to_multiset_update(s, i, s[j]);
    vstd::seq_lib::to_multiset_update(t, j, s[i]);
}

/// Exchanges the elements at `i` and `j`.
pub fn swap<T>(s: &mut [T], i: usize, j: usize)
    requires
        i < old(s)@.len(),
        j < old(s)@.len(),
    ensures
        final(s)@ == swapped(old(s)@, i as int, j as int),
        final(s)@.to_multiset() == old(s)@.to_multiset(),
{
    proof {
        lemma_swapped_multiset(s@, i as int, j as int);
    }
    if i == j {
        return ;
    }
    let (low, high) = if i < j {
        (i, j)
    } else {
        (j, i)
    };
    let (left, right) = s.split_at_mut(high);
    core::mem::swap(&mut left[low], &mut right[0]);
    assert(final(s)@ =~= swapped(old(s)@, i as int, j as int));
}

} // verus!
