//! Order statistics by partitioning around a random element.
//!
//! [`hoare_partition`] rearranges a slice around one of its elements,
//! picked at random: nothing before the element's final place is above
//! it and nothing after that place is below it. The work is done by
//! [`hoare_partition_around`], which is told the number that picks the
//! element. [`k_stat`] finds the element that sorting would put at a
//! given place by partitioning again and again the part that holds the
//! place. Whichever elements the random picks fall on, the results are as
//! stated.

use crate::order::{
    greater, le, lemma_integers_total_order, lemma_le_reflexive, lemma_le_total,
    lemma_le_transitive, less, lt, total_order,
};
use crate::random::random_number;
use crate::slices::{swap, swapped};
use vstd::prelude::*;

verus! {

/// The slice is split at `p`: nothing before `p` is above the element at
/// `p` and nothing after `p` is below it. Sorting the slice would leave
/// that element where it is.
pub open spec fn split_at<T: Ord>(s: Seq<T>, p: int) -> bool {
    &&& 0 <= p < s.len()
    &&& forall|k: int| 0 <= k < p ==> le(#[trigger] s[k], s[p])
    &&& forall|k: int| p < k < s.len() ==> le(s[p], #[trigger] s[k])
}

/// The pivot that the number `pick` picks in `s`: the element at `pick`
/// modulo the length is put first, and if the last element is below it,
/// the last element is the pivot in its stead.
pub open spec fn pivot_of<T: Ord>(s: Seq<T>, pick: int) -> T {
    let t = swapped(s, 0, pick % (s.len() as int));
    if lt(t[t.len() - 1], t[0]) {
        t[t.len() - 1]
    } else {
        t[0]
    }
}

/// The state of the partition between two exchanges: everything up to
/// `i`, the first element apart, is not above the first element, and
/// everything after `j` is not below it.
spec fn partitioning<T: Ord>(s: Seq<T>, i: int, j: int) -> bool {
    &&& forall|k: int| 1 <= k <= i ==> le(#[trigger] s[k], s[0])
    &&& forall|k: int| j < k < s.len() ==> le(s[0], #[trigger] s[k])
}

/// Rearranges the slice around one of its elements, picked at random, and
/// returns the place where that element ends up. An empty slice is left
/// alone and the result is zero.
pub fn hoare_partition<T: Ord>(seq: &mut [T]) -> (p: usize)
    requires
        total_order::<T>(),
    ensures
        final(seq)@.len() == old(seq)@.len(),
        final(seq)@.to_multiset() == old(seq)@.to_multiset(),
        old(seq)@.len() == 0 ==> p == 0,
        old(seq)@.len() > 0 ==> split_at(final(seq)@, p as int),
{
    hoare_partition_around(seq, random_number())
}

/// Rearranges the slice around the pivot that `pick` picks, see
/// [`pivot_of`], and returns the place where the pivot ends up. An empty
/// slice is left alone and the result is zero.
pub fn hoare_partition_around<T: Ord>(seq: &mut [T], pick: usize) -> (p: usize)
    requires
        total_order::<T>(),
    ensures
        final(seq)@.len() == old(seq)@.len(),
        final(seq)@.to_multiset() == old(seq)@.to_multiset(),
        old(seq)@.len() == 0 ==> p == 0,
        old(seq)@.len() > 0 ==> split_at(final(seq)@, p as int) && final(seq)@[p as int]
            == pivot_of(old(seq)@, pick as int),
{
    let n = seq.len();
    if n < 2 {
        proof {
            if n == 1 {
                lemma_le_reflexive(seq@[0]);
                lemma_le_total(seq@[0], seq@[0]);
                assert(seq@ =~= swapped(seq@, 0, 0));
            }
        }
        return 0;
    }
    let pick = pick % n;
    swap(seq, 0, pick);
    let mut i: usize = 0;
    let mut j: usize = n - 1;
    if greater(&seq[i], &seq[j]) {
        swap(seq, i, j);
    }
    proof {
        lemma_le_total(seq@[0], seq@[n - 1]);
        lemma_le_total(seq@[n - 1], seq@[0]);
    }
    let ghost pivot = seq@[0];
    loop
        invariant_except_break
            i <= j,
            (i < j && le(pivot, seq@[j as int])) || j + 1 < n,
            partitioning(seq@, i as int, j as int),
        invariant
            2 <= n,
            n == seq@.len(),
            j < n,
            pivot == seq@[0],
            total_order::<T>(),
            seq@.to_multiset() == old(seq)@.to_multiset(),
        ensures
            1 <= i < n,
            forall|k: int| 1 <= k < i ==> le(#[trigger] seq@[k], pivot),
            forall|k: int| i <= k < n ==> le(pivot, #[trigger] seq@[k]),
        decreases j,
    {
        let ghost sentinel: int = if i < j && le(pivot, seq@[j as int]) {
            j as int
        } else {
            j + 1
        };
        let ghost j_before = j;
        i += 1;
        while less(&seq[i], &seq[0])
            invariant
                1 <= i <= sentinel < n,
                n == seq@.len(),
                pivot == seq@[0],
                total_order::<T>(),
                le(pivot, seq@[sentinel]),
                forall|k: int| 1 <= k < i ==> le(#[trigger] seq@[k], pivot),
            decreases n - i,
        {
            proof {
                lemma_le_total(seq@[i as int], pivot);
            }
            i += 1;
        }
        proof {
            lemma_le_total(seq@[i as int], pivot);
            lemma_le_reflexive(pivot);
            lemma_le_total(pivot, pivot);
        }
        while greater(&seq[j], &seq[0])
            invariant
                j <= j_before < n,
                n == seq@.len(),
                pivot == seq@[0],
                total_order::<T>(),
                !lt(pivot, pivot),
                forall|k: int| j < k < n ==> le(pivot, #[trigger] seq@[k]),
            decreases j,
        {
            proof {
                lemma_le_total(pivot, seq@[j as int]);
            }
            j -= 1;
        }
        proof {
            lemma_le_total(pivot, seq@[j as int]);
        }
        if i >= j {
            break ;
        }
        swap(seq, i, j);
        j -= 1;
    }
    i -= 1;
    swap(seq, 0, i);
    i
}

/// Rearranges the slice so that it is split at `k`: partitions it, and
/// then again the part on the side of the split where `k` lies, until a
/// split falls on `k`.
fn settle<T: Ord>(seq: &mut [T], k: usize)
    requires
        total_order::<T>(),
        k < old(seq)@.len(),
    ensures
        final(seq)@.len() == old(seq)@.len(),
        final(seq)@.to_multiset() == old(seq)@.to_multiset(),
        split_at(final(seq)@, k as int),
    decreases old(seq)@.len(),
{
    let n = seq.len();
    if n < 2 {
        proof {
            lemma_le_reflexive(seq@[0]);
        }
        return ;
    }
    let p = hoare_partition(seq);
    let ghost parted = seq@;
    if p > k {
        let (left, right) = seq.split_at_mut(p);
        let ghost (before, rest) = (left@, right@);
        settle(left, k);
        proof {
            lemma_left_part(parted, before, rest, left@, p as int, k as int);
        }
    } else if p < k {
        let (left, right) = seq.split_at_mut(p + 1);
        let ghost (rest, before) = (left@, right@);
        settle(right, k - p - 1);
        proof {
            lemma_right_part(parted, rest, before, right@, p as int, k as int);
        }
    }
}

/// Finds the element that sorting would put at place `k`: rearranges the
/// slice so that it is split at `k`, and returns the element there.
pub fn k_stat<T: Ord>(seq: &mut [T], k: usize) -> (r: &T)
    requires
        total_order::<T>(),
        k < old(seq)@.len(),
    ensures
        final(seq)@.len() == old(seq)@.len(),
        final(seq)@.to_multiset() == old(seq)@.to_multiset(),
        split_at(final(seq)@, k as int),
        *r == final(seq)@[k as int],
{
    settle(seq, k);
    &seq[k]
}

/// Rearranging the part before the split leaves the slice split wherever
/// that part is split.
proof fn lemma_left_part<T: Ord>(
    parted: Seq<T>,
    before: Seq<T>,
    rest: Seq<T>,
    after: Seq<T>,
    p: int,
    k: int,
)
    requires
        total_order::<T>(),
        split_at(parted, p),
        0 <= k < p,
        before == parted.subrange(0, p),
        rest == parted.subrange(p, parted.len() as int),
        after.len() == before.len(),
        after.to_multiset() == before.to_multiset(),
        split_at(after, k),
    ensures
        (after + rest).to_multiset() == parted.to_multiset(),
        split_at(after + rest, k),
        (after + rest)[k] == after[k],
{
    broadcast use vstd::seq_lib::to_multiset_contains;

    let whole = after + rest;
    assert(parted =~= before + rest);
    vstd::seq_lib::lemma_multiset_commutative(before, rest);
    vstd::seq_lib::lemma_multiset_commutative(after, rest);
    assert forall|a: int| k < a < whole.len() implies le(whole[k], #[trigger] whole[a]) by {
        if a >= p {
            assert(before.to_multiset().count(after[k]) > 0);
            let b = choose|b: int| 0 <= b < before.len() && before[b] == after[k];
            if a > p {
                lemma_le_transitive(parted[b], parted[p], parted[a]);
            }
        }
    }
}

/// Rearranging the part after the split leaves the slice split wherever
/// that part is split.
proof fn lemma_right_part<T: Ord>(
    parted: Seq<T>,
    rest: Seq<T>,
    before: Seq<T>,
    after: Seq<T>,
    p: int,
    k: int,
)
    requires
        total_order::<T>(),
        split_at(parted, p),
        p < k < parted.len(),
        rest == parted.subrange(0, p + 1),
        before == parted.subrange(p + 1, parted.len() as int),
        after.len() == before.len(),
        after.to_multiset() == before.to_multiset(),
        split_at(after, k - p - 1),
    ensures
        (rest + after).to_multiset() == parted.to_multiset(),
        split_at(rest + after, k),
        (rest + after)[k] == after[k - p - 1],
{
    broadcast use vstd::seq_lib::to_multiset_contains;

    let whole = rest + after;
    assert(parted =~= rest + before);
    vstd::seq_lib::lemma_multiset_commutative(rest, before);
    vstd::seq_lib::lemma_multiset_commutative(rest, after);
    assert forall|a: int| 0 <= a < k implies le(#[trigger] whole[a], whole[k]) by {
        if a <= p {
            assert(before.to_multiset().count(after[k - p - 1]) > 0);
            let b = choose|b: int| 0 <= b < before.len() && before[b] == after[k - p - 1];
            if a < p {
                lemma_le_transitive(parted[a], parted[p], parted[p + 1 + b]);
            }
        }
    }
}

/// The median of the numbers: the element that sorting would put in the
/// middle, the upper one of the two middle places if the count is even.
pub fn solution(seq: &mut [i64]) -> (r: i64)
    requires
        old(seq)@.len() > 0,
    ensures
        final(seq)@.len() == old(seq)@.len(),
        final(seq)@.to_multiset() == old(seq)@.to_multiset(),
        split_at(final(seq)@, old(seq)@.len() as int / 2),
        r == final(seq)@[old(seq)@.len() as int / 2],
{
    proof {
        lemma_integers_total_order();
    }
    let n = seq.len();
    *k_stat(seq, n / 2)
}

} // verus!
