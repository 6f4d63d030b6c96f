//! Shell sort.
//!
//! A pass with gap `k` is an insertion sort of each of the `k` interleaved
//! subsequences `s[r], s[r + k], s[r + 2k], ...`; the pass with gap one is
//! an insertion sort of the whole slice and leaves it sorted.
//!
//! A pass rearranges and never loses an element, whatever the element
//! type. The order of the result is claimed where the comparison of the
//! type is a total order.

use crate::order::{greater, le, lemma_le_reflexive, lemma_le_total, lemma_le_transitive, lt, total_order};
use crate::slices::swap;
use vstd::prelude::*;

verus! {

/// No element is above a later one.
pub open spec fn sorted<T: Ord>(s: Seq<T>) -> bool {
    forall|i: int, j: int| 0 <= i <= j < s.len() ==> le(s[i], s[j])
}

/// Among the first `n` elements, none is above the one `k` places later.
pub open spec fn gap_sorted_to<T: Ord>(s: Seq<T>, k: int, n: int) -> bool {
    forall|m: int| k <= m < n ==> le(#[trigger] s[m - k], s[m])
}

/// No element is above the one `k` places later.
pub open spec fn gap_sorted<T: Ord>(s: Seq<T>, k: int) -> bool {
    gap_sorted_to(s, k, s.len() as int)
}

/// The state in the middle of one insertion: the first `i + 1` elements
/// are in gap order but for the element at `j`, which is still on its way
/// down, and the elements around it are in order with each other.
spec fn inserting<T: Ord>(s: Seq<T>, k: int, i: int, j: int) -> bool {
    &&& forall|m: int| k <= m <= i && m != j ==> le(#[trigger] s[m - k], s[m])
    &&& k <= j && j + k <= i ==> le(s[j - k], s[j + k])
}

/// Everything in `s` is not above `x`.
pub open spec fn all_le<T: Ord>(s: Seq<T>, x: T) -> bool {
    forall|k: int| 0 <= k < s.len() ==> le(#[trigger] s[k], x)
}

/// A sorted sequence stays sorted when an element not below any of its
/// elements is put behind it.
pub proof fn lemma_sorted_push<T: Ord>(s: Seq<T>, x: T)
    requires
        total_order::<T>(),
        sorted(s),
        all_le(s, x),
    ensures
        sorted(s.push(x)),
        all_le(s.push(x), x),
{
    lemma_le_reflexive(x);
}

/// What is not above `x` is not above anything that `x` is not above.
pub proof fn lemma_all_le_transitive<T: Ord>(s: Seq<T>, x: T, y: T)
    requires
        total_order::<T>(),
        all_le(s, x),
        le(x, y),
    ensures
        all_le(s, y),
{
    assert forall|k: int| 0 <= k < s.len() implies le(#[trigger] s[k], y) by {
        lemma_le_transitive(s[k], x, y);
    }
}

/// A slice in which no element is above its successor is sorted.
pub proof fn lemma_gap_one_is_sorted<T: Ord>(s: Seq<T>)
    requires
        total_order::<T>(),
        gap_sorted(s, 1),
    ensures
        sorted(s),
{
    assert forall|i: int, j: int| 0 <= i <= j < s.len() implies le(s[i], s[j]) by {
        lemma_ascending(s, i, j);
    }
}

proof fn lemma_ascending<T: Ord>(s: Seq<T>, i: int, j: int)
    requires
        total_order::<T>(),
        gap_sorted(s, 1),
        0 <= i <= j < s.len(),
    ensures
        le(s[i], s[j]),
    decreases j - i,
{
    if i == j {
        lemma_le_reflexive(s[i]);
    } else {
        lemma_ascending(s, i, j - 1);
        lemma_le_transitive(s[i], s[j - 1], s[j]);
    }
}

/// Moving the element at `j` one gap down, past an element above it,
/// keeps the rest in order.
proof fn lemma_insert_step<T: Ord>(s: Seq<T>, k: int, i: int, j: int)
    requires
        total_order::<T>(),
        0 < k <= j <= i < s.len(),
        inserting(s, k, i, j),
        lt(s[j], s[j - k]),
    ensures
        inserting(crate::slices::swapped(s, j, j - k), k, i, j - k),
{
    lemma_le_total(s[j], s[j - k]);
}

/// One pass of insertion sort with gap `k`. A gap of zero leaves the
/// slice as it is.
pub fn shell_sort_k<T: Ord>(seq: &mut [T], k: usize)
    ensures
        final(seq)@.len() == old(seq)@.len(),
        final(seq)@.to_multiset() == old(seq)@.to_multiset(),
        k == 0 ==> final(seq)@ == old(seq)@,
        total_order::<T>() && k > 0 ==> gap_sorted(final(seq)@, k as int),
{
    if k == 0 {
        return ;
    }
    let n = seq.len();
    let mut i: usize = k;
    while i < n
        invariant
            0 < k <= i,
            n == seq@.len(),
            n == old(seq)@.len(),
            seq@.to_multiset() == old(seq)@.to_multiset(),
            total_order::<T>() ==> gap_sorted_to(seq@, k as int, i as int),
        decreases n - i,
    {
        let mut j: usize = i;
        while greater(&seq[j - k], &seq[j])
            invariant_except_break
                k <= j,
            invariant
                0 < k <= i < n,
                j <= i,
                n == seq@.len(),
                seq@.to_multiset() == old(seq)@.to_multiset(),
                total_order::<T>() ==> inserting(seq@, k as int, i as int, j as int),
            ensures
                total_order::<T>() && k <= j ==> !lt(seq@[j as int], seq@[j - k]),
            decreases j,
        {
            proof {
                if total_order::<T>() {
                    lemma_insert_step(seq@, k as int, i as int, j as int);
                }
            }
            swap(seq, j, j - k);
            j -= k;
            if j < k {
                break ;
            }
        }
        proof {
            if total_order::<T>() {
                if j >= k {
                    lemma_le_total(seq@[j as int], seq@[j - k]);
                }
            }
        }
        i += 1;
    }
}

/// Sorts the slice: passes with gaps seven, three and one.
pub fn shell_sort<T: Ord>(seq: &mut [T])
    ensures
        final(seq)@.len() == old(seq)@.len(),
        final(seq)@.to_multiset() == old(seq)@.to_multiset(),
        total_order::<T>() ==> sorted(final(seq)@),
{
    shell_sort_k(seq, 7);
    shell_sort_k(seq, 3);
    shell_sort_k(seq, 1);
    proof {
        if total_order::<T>() {
            lemma_gap_one_is_sorted(seq@);
        }
    }
}

} // verus!
