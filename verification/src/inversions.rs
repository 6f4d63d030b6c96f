//! Counting inversions by merge sort.
//!
//! An inversion is a pair of places, the first before the second, whose
//! first element is not below the second one; a pair of equal elements
//! counts. The slice is sorted by merging sorted halves, and the
//! inversions between the halves are counted while they are merged.

use crate::order::{le, lemma_le_reflexive, lemma_le_total, lemma_le_transitive, less, lt, total_order};
use crate::sorting::{all_le, lemma_all_le_transitive, lemma_sorted_push, sorted};
use vstd::prelude::*;

verus! {

/// The number of elements of `s` that are not below `x`.
pub open spec fn not_below<T: Ord>(s: Seq<T>, x: T) -> nat
    decreases s.len(),
{
    if s.len() == 0 {
        0
    } else {
        not_below(s.drop_last(), x) + if lt(s.last(), x) {
            0nat
        } else {
            1nat
        }
    }
}

/// The number of inversions of `s`: the pairs of places `i < j` whose
/// element at `i` is not below the element at `j`.
pub open spec fn inversions<T: Ord>(s: Seq<T>) -> nat
    decreases s.len(),
{
    if s.len() == 0 {
        0
    } else {
        inversions(s.drop_last()) + not_below(s.drop_last(), s.last())
    }
}

/// The number of pairs of an element of `a` and an element of `b` of
/// which the first is not below the second.
pub open spec fn crossings<T: Ord>(a: Seq<T>, b: Seq<T>) -> nat
    decreases b.len(),
{
    if b.len() == 0 {
        0
    } else {
        crossings(a, b.drop_last()) + not_below(a, b.last())
    }
}

proof fn lemma_not_below_bound<T: Ord>(s: Seq<T>, x: T)
    ensures
        not_below(s, x) <= s.len(),
    decreases s.len(),
{
    if s.len() > 0 {
        lemma_not_below_bound(s.drop_last(), x);
    }
}

proof fn lemma_not_below_concat<T: Ord>(a: Seq<T>, b: Seq<T>, x: T)
    ensures
        not_below(a + b, x) == not_below(a, x) + not_below(b, x),
    decreases b.len(),
{
    if b.len() > 0 {
        lemma_not_below_concat(a, b.drop_last(), x);
        assert((a + b).drop_last() =~= a + b.drop_last());
    }
}

/// Taking one element out takes it out of the count, if it counted.
proof fn lemma_not_below_remove<T: Ord>(s: Seq<T>, p: int, x: T)
    requires
        0 <= p < s.len(),
    ensures
        not_below(s, x) == not_below(s.remove(p), x) + if lt(s[p], x) {
            0nat
        } else {
            1nat
        },
{
    let (front, back) = (s.take(p), s.skip(p + 1));
    assert(s =~= front.push(s[p]) + back);
    lemma_not_below_concat(front.push(s[p]), back, x);
    lemma_not_below_concat(front, back, x);
    assert(front.push(s[p]).drop_last() =~= front);
}

/// The count does not depend on the order of the elements.
proof fn lemma_not_below_rearranged<T: Ord>(a: Seq<T>, b: Seq<T>, x: T)
    requires
        a.to_multiset() == b.to_multiset(),
    ensures
        not_below(a, x) == not_below(b, x),
    decreases a.len(),
{
    broadcast use vstd::seq_lib::to_multiset_len;
    broadcast use vstd::seq_lib::to_multiset_contains;
    broadcast use vstd::multiset::group_multiset_axioms;

    vstd::seq_lib::to_multiset_len(a);
    vstd::seq_lib::to_multiset_len(b);
    if a.len() > 0 {
        let e = a.last();
        assert(b.to_multiset().count(e) > 0);
        let p = choose|p: int| 0 <= p < b.len() && b[p] == e;
        vstd::seq_lib::to_multiset_remove(b, p);
        vstd::seq_lib::to_multiset_remove(a, a.len() - 1);
        lemma_not_below_rearranged(a.drop_last(), b.remove(p), x);
        lemma_not_below_remove(b, p, x);
    }
}

proof fn lemma_crossings_bound<T: Ord>(a: Seq<T>, b: Seq<T>)
    ensures
        crossings(a, b) <= a.len() * b.len(),
    decreases b.len(),
{
    if b.len() > 0 {
        lemma_crossings_bound(a, b.drop_last());
        lemma_not_below_bound(a, b.last());
        assert(a.len() * (b.len() - 1) + a.len() == a.len() * b.len()) by (nonlinear_arith);
    } else {
        assert(a.len() * b.len() == 0) by (nonlinear_arith)
            requires
                b.len() == 0,
        ;
    }
}

proof fn lemma_crossings_concat<T: Ord>(a: Seq<T>, b: Seq<T>, c: Seq<T>)
    ensures
        crossings(a, b + c) == crossings(a, b) + crossings(a, c),
    decreases c.len(),
{
    if c.len() > 0 {
        lemma_crossings_concat(a, b, c.drop_last());
        assert((b + c).drop_last() =~= b + c.drop_last());
    }
}

proof fn lemma_crossings_remove<T: Ord>(a: Seq<T>, b: Seq<T>, p: int)
    requires
        0 <= p < b.len(),
    ensures
        crossings(a, b) == crossings(a, b.remove(p)) + not_below(a, b[p]),
{
    let (front, back) = (b.take(p), b.skip(p + 1));
    assert(b =~= front.push(b[p]) + back);
    lemma_crossings_concat(a, front.push(b[p]), back);
    lemma_crossings_concat(a, front, back);
    assert(front.push(b[p]).drop_last() =~= front);
}

/// The crossings do not depend on the order within either sequence.
proof fn lemma_crossings_rearranged<T: Ord>(a: Seq<T>, b: Seq<T>, a2: Seq<T>, b2: Seq<T>)
    requires
        a.to_multiset() == a2.to_multiset(),
        b.to_multiset() == b2.to_multiset(),
    ensures
        crossings(a, b) == crossings(a2, b2),
    decreases b.len(),
{
    broadcast use vstd::seq_lib::to_multiset_len;
    broadcast use vstd::seq_lib::to_multiset_contains;
    broadcast use vstd::multiset::group_multiset_axioms;

    vstd::seq_lib::to_multiset_len(b);
    vstd::seq_lib::to_multiset_len(b2);
    if b.len() > 0 {
        let e = b.last();
        assert(b2.to_multiset().count(e) > 0);
        let p = choose|p: int| 0 <= p < b2.len() && b2[p] == e;
        vstd::seq_lib::to_multiset_remove(b2, p);
        vstd::seq_lib::to_multiset_remove(b, b.len() - 1);
        lemma_crossings_rearranged(a, b.drop_last(), a2, b2.remove(p));
        lemma_crossings_remove(a2, b2, p);
        lemma_not_below_rearranged(a, a2, e);
    }
}

/// The inversions of a sequence are those of its two parts and the
/// crossings between them.
proof fn lemma_inversions_concat<T: Ord>(a: Seq<T>, b: Seq<T>)
    ensures
        inversions(a + b) == inversions(a) + inversions(b) + crossings(a, b),
    decreases b.len(),
{
    if b.len() > 0 {
        lemma_inversions_concat(a, b.drop_last());
        assert((a + b).drop_last() =~= a + b.drop_last());
        lemma_not_below_concat(a, b.drop_last(), b.last());
    }
}

/// Everything in `s` is below `x`.
spec fn all_lt<T: Ord>(s: Seq<T>, x: T) -> bool {
    forall|k: int| 0 <= k < s.len() ==> lt(#[trigger] s[k], x)
}

/// What is below `x` is below everything that `x` is not above.
proof fn lemma_all_lt_le<T: Ord>(s: Seq<T>, x: T, y: T)
    requires
        total_order::<T>(),
        all_lt(s, x),
        le(x, y),
    ensures
        all_lt(s, y),
{
    assert forall|k: int| 0 <= k < s.len() implies lt(#[trigger] s[k], y) by {
        lemma_le_total(s[k], x);
        lemma_le_total(s[k], y);
        if le(y, s[k]) {
            lemma_le_transitive(x, y, s[k]);
        }
    }
}

/// In a sorted sequence whose first `i` elements are below `x` and whose
/// element at `i`, if there is one, is not, the elements not below `x`
/// are those from `i` on.
proof fn lemma_counted<T: Ord>(s: Seq<T>, x: T, i: int)
    requires
        total_order::<T>(),
        sorted(s),
        0 <= i <= s.len(),
        all_lt(s.take(i), x),
        i < s.len() ==> !lt(s[i], x),
    ensures
        not_below(s, x) == s.len() - i,
    decreases s.len(),
{
    if s.len() > 0 {
        let front = s.drop_last();
        let last = s.len() - 1;
        if i == s.len() {
            lemma_counted(front, x, i - 1);
            assert(s.take(i)[last] == s[last]);
        } else {
            lemma_counted(front, x, i);
            // the last element is not below the one at `i`, which is not below `x`
            lemma_le_total(s[i], x);
            lemma_le_total(s[last], x);
            lemma_le_total(x, s[i]);
            if lt(s[last], x) {
                lemma_le_transitive(s[i], s[last], x);
                lemma_le_transitive(x, s[i], s[last]);
            }
        }
    }
}

proof fn lemma_count_bound(m: int, n: int, j: int, i: int)
    by (nonlinear_arith)
    requires
        0 <= i <= m <= j < n,
    ensures
        m * (j + 1 - m) == m * (j - m) + m,
        m * (j + 1 - m) <= m * (n - m),
        m * (j - m) >= 0,
{
}

/// The number of pairs of places in a sequence of length `n`, which is
/// the most inversions that the sequence can have.
pub open spec fn pairs(n: int) -> int {
    n * (n - 1) / 2
}

proof fn lemma_pairs_double(n: int)
    requires
        0 <= n,
    ensures
        2 * pairs(n) == n * (n - 1),
        pairs(n) >= 0,
    decreases n,
{
    let here = n * (n - 1);
    if n > 0 {
        let before = (n - 1) * ((n - 1) - 1);
        lemma_pairs_double(n - 1);
        assert(here == before + 2 * (n - 1)) by (nonlinear_arith)
            requires
                here == n * (n - 1),
                before == (n - 1) * ((n - 1) - 1),
        ;
        assert(before == 2 * pairs(n - 1));
        assert(here == 2 * (pairs(n - 1) + (n - 1)));
    } else {
        assert(here == 0) by (nonlinear_arith)
            requires
                here == n * (n - 1),
                n == 0,
        ;
    }
}

/// The pairs of a sequence are those within its two parts and those
/// between them.
proof fn lemma_pairs_split(m: int, n: int)
    requires
        0 <= m <= n,
    ensures
        pairs(m) + pairs(n - m) + m * (n - m) == pairs(n),
        0 <= pairs(m) <= pairs(n),
        0 <= pairs(n - m) <= pairs(n),
{
    lemma_pairs_double(m);
    lemma_pairs_double(n - m);
    lemma_pairs_double(n);
    assert(m * (m - 1) + (n - m) * (n - m - 1) + 2 * (m * (n - m)) == n * (n - 1))
        by (nonlinear_arith);
    assert(m * (n - m) >= 0) by (nonlinear_arith)
        requires
            0 <= m <= n,
    ;
}

/// Sorts `seq`, with `buf` as room for merging, and returns the number of
/// inversions that `seq` had.
pub fn count_inversion_impl<T: Ord + Copy>(seq: &mut [T], buf: &mut [T]) -> (c: usize)
    requires
        old(buf)@.len() == old(seq)@.len(),
        pairs(old(seq)@.len() as int) <= usize::MAX,
    ensures
        final(seq)@.len() == old(seq)@.len(),
        final(buf)@.len() == old(buf)@.len(),
        final(seq)@.to_multiset() == old(seq)@.to_multiset(),
        c <= pairs(old(seq)@.len() as int),
        total_order::<T>() ==> sorted(final(seq)@) && c == inversions(old(seq)@),
    decreases old(seq)@.len(),
{
    let n = seq.len();
    let ghost whole = seq@;
    if n <= 1 {
        proof {
            lemma_pairs_double(n as int);
            if n == 1 {
                assert(inversions(whole.drop_last()) == 0);
                if total_order::<T>() {
                    lemma_le_reflexive(whole[0]);
                }
            }
        }
        return 0;
    }
    let m = n / 2;
    let ghost (first, second) = (whole.subrange(0, m as int), whole.subrange(m as int, n as int));
    proof {
        lemma_pairs_split(m as int, n as int);
        assert(whole =~= first + second);
        lemma_inversions_concat(first, second);
        vstd::seq_lib::lemma_multiset_commutative(first, second);
    }
    let (left, right) = seq.split_at_mut(m);
    let (left_buf, right_buf) = buf.split_at_mut(m);
    let c1 = count_inversion_impl(left, left_buf);
    let c2 = count_inversion_impl(right, right_buf);
    let ghost (lo, hi) = (left@, right@);
    proof {
        vstd::seq_lib::lemma_multiset_commutative(lo, hi);
        lemma_crossings_rearranged(first, second, lo, hi);
        lemma_crossings_bound(lo, hi);
    }
    proof {
        assert(buf@.take(0) =~= lo.take(0) + hi.take(0));
    }
    let mut c: usize = c1 + c2;
    let mut i: usize = 0;
    let mut j: usize = m;
    let mut k: usize = 0;
    while i < m && j < n
        invariant
            i <= m <= j <= n,
            k == i + (j - m),
            n == seq@.len(),
            n == buf@.len(),
            seq@ == lo + hi,
            lo.len() == m,
            c1 <= pairs(m as int),
            c2 <= pairs(n - m),
            pairs(m as int) + pairs(n - m) + m * (n - m) == pairs(n as int),
            pairs(n as int) <= usize::MAX,
            c1 + c2 <= c <= c1 + c2 + m * (j - m),
            buf@.take(k as int).to_multiset() == (lo.take(i as int) + hi.take(j - m)).to_multiset(),
            total_order::<T>() ==> {
                &&& sorted(lo)
                &&& sorted(hi)
                &&& sorted(buf@.take(k as int))
                &&& c == c1 + c2 + crossings(lo, hi.take(j - m))
                &&& j < n ==> all_lt(lo.take(i as int), hi[j - m])
                &&& i < m ==> all_le(buf@.take(k as int), lo[i as int])
                &&& j < n ==> all_le(buf@.take(k as int), hi[j - m])
            },
        decreases n - k,
    {
        let ghost merged = buf@.take(k as int);
        proof {
            lemma_crossings_step(lo, hi, j - m);
            lemma_count_bound(m as int, n as int, j as int, i as int);
        }
        if less(&seq[i], &seq[j]) {
            buf[k] = seq[i];
            proof {
                assert(buf@.take(k + 1) =~= merged.push(lo[i as int]));
                lemma_merged_left(lo, hi, i as int, j - m);
                vstd::seq_lib::to_multiset_build(merged, lo[i as int]);
                if total_order::<T>() {
                    lemma_le_total(lo[i as int], hi[j - m]);
                    lemma_sorted_push(merged, lo[i as int]);
                    lemma_all_le_transitive(merged.push(lo[i as int]), lo[i as int], hi[j - m]);
                    if i + 1 < m {
                        lemma_all_le_transitive(merged.push(lo[i as int]), lo[i as int], lo[i + 1]);
                    }
                }
            }
            i += 1;
        } else {
            proof {
                if total_order::<T>() {
                    lemma_le_total(lo[i as int], hi[j - m]);
                    lemma_le_total(hi[j - m], lo[i as int]);
                    lemma_counted(lo, hi[j - m], i as int);
                }
                lemma_not_below_bound(lo, hi[j - m]);
            }
            c = c + (m - i);
            buf[k] = seq[j];
            proof {
                assert(buf@.take(k + 1) =~= merged.push(hi[j - m]));
                lemma_merged_right(lo, hi, i as int, j - m);
                vstd::seq_lib::to_multiset_build(merged, hi[j - m]);
                if total_order::<T>() {
                    lemma_sorted_push(merged, hi[j - m]);
                    lemma_all_le_transitive(merged.push(hi[j - m]), hi[j - m], lo[i as int]);
                    if j + 1 < n {
                        lemma_all_le_transitive(merged.push(hi[j - m]), hi[j - m], hi[j - m + 1]);
                        lemma_all_lt_le(lo.take(i as int), hi[j - m], hi[j - m + 1]);
                    }
                }
            }
            j += 1;
        }
        k += 1;
    }
    proof {
        assert(m * (j - m) <= m * (n - m)) by (nonlinear_arith)
            requires
                0 <= m <= j <= n,
        ;
    }
    while i < m
        invariant
            i <= m <= j <= n,
            k == i + (j - m),
            i < m ==> j == n,
            c <= pairs(n as int),
            n == seq@.len(),
            n == buf@.len(),
            seq@ == lo + hi,
            lo.len() == m,
            buf@.take(k as int).to_multiset() == (lo.take(i as int) + hi.take(j - m)).to_multiset(),
            total_order::<T>() ==> {
                &&& sorted(lo)
                &&& sorted(hi)
                &&& sorted(buf@.take(k as int))
                &&& c == c1 + c2 + crossings(lo, hi.take(j - m))
                &&& j < n ==> all_lt(lo.take(i as int), hi[j - m])
                &&& i < m ==> all_le(buf@.take(k as int), lo[i as int])
                &&& j < n ==> all_le(buf@.take(k as int), hi[j - m])
            },
        decreases m - i,
    {
        let ghost merged = buf@.take(k as int);
        buf[k] = seq[i];
        proof {
            assert(buf@.take(k + 1) =~= merged.push(lo[i as int]));
            lemma_merged_left(lo, hi, i as int, j - m);
            vstd::seq_lib::to_multiset_build(merged, lo[i as int]);
            if total_order::<T>() {
                lemma_sorted_push(merged, lo[i as int]);
                if i + 1 < m {
                    lemma_all_le_transitive(merged.push(lo[i as int]), lo[i as int], lo[i + 1]);
                }
            }
        }
        i += 1;
        k += 1;
    }
    proof {
        assert(lo.take(m as int) =~= lo);
    }
    while j < n
        invariant
            i == m,
            m <= j <= n,
            c <= pairs(n as int),
            k == i + (j - m),
            n == seq@.len(),
            n == buf@.len(),
            seq@ == lo + hi,
            lo.len() == m,
            buf@.take(k as int).to_multiset() == (lo.take(i as int) + hi.take(j - m)).to_multiset(),
            total_order::<T>() ==> {
                &&& sorted(lo)
                &&& sorted(hi)
                &&& sorted(buf@.take(k as int))
                &&& c == c1 + c2 + crossings(lo, hi.take(j - m))
                &&& j < n ==> all_lt(lo, hi[j - m])
                &&& j < n ==> all_le(buf@.take(k as int), hi[j - m])
            },
        decreases n - j,
    {
        let ghost merged = buf@.take(k as int);
        proof {
            lemma_crossings_step(lo, hi, j - m);
        }
        buf[k] = seq[j];
        proof {
            assert(buf@.take(k + 1) =~= merged.push(hi[j - m]));
            lemma_merged_right(lo, hi, i as int, j - m);
            vstd::seq_lib::to_multiset_build(merged, hi[j - m]);
            if total_order::<T>() {
                lemma_counted(lo, hi[j - m], m as int);
                lemma_sorted_push(merged, hi[j - m]);
                if j + 1 < n {
                    lemma_all_le_transitive(merged.push(hi[j - m]), hi[j - m], hi[j - m + 1]);
                    lemma_all_lt_le(lo, hi[j - m], hi[j - m + 1]);
                }
            }
        }
        j += 1;
        k += 1;
    }
    proof {
        assert(buf@.take(n as int) =~= buf@);
        assert(hi.take(n - m) =~= hi);
    }
    let mut t: usize = 0;
    while t < n
        invariant
            t <= n,
            n == seq@.len(),
            n == buf@.len(),
            forall|x: int| 0 <= x < t ==> seq@[x] == buf@[x],
        decreases n - t,
    {
        seq[t] = buf[t];
        t += 1;
    }
    proof {
        assert(seq@ =~= buf@);
    }
    c
}

/// The crossings with one more element of `b`.
proof fn lemma_crossings_step<T: Ord>(a: Seq<T>, b: Seq<T>, j: int)
    requires
        0 <= j < b.len(),
    ensures
        crossings(a, b.take(j + 1)) == crossings(a, b.take(j)) + not_below(a, b[j]),
{
    assert(b.take(j + 1).drop_last() =~= b.take(j));
}

/// One more element of the first sequence among the merged ones.
proof fn lemma_merged_left<T>(a: Seq<T>, b: Seq<T>, i: int, j: int)
    requires
        0 <= i < a.len(),
        0 <= j <= b.len(),
    ensures
        (a.take(i + 1) + b.take(j)).to_multiset() == (a.take(i) + b.take(j)).to_multiset().insert(
            a[i],
        ),
{
    let merged = a.take(i) + b.take(j);
    assert(a.take(i + 1) + b.take(j) =~= merged.insert(i, a[i]));
    vstd::seq_lib::to_multiset_insert(merged, i, a[i]);
}

/// One more element of the second sequence among the merged ones.
proof fn lemma_merged_right<T>(a: Seq<T>, b: Seq<T>, i: int, j: int)
    requires
        0 <= i <= a.len(),
        0 <= j < b.len(),
    ensures
        (a.take(i) + b.take(j + 1)).to_multiset() == (a.take(i) + b.take(j)).to_multiset().insert(
            b[j],
        ),
{
    let merged = a.take(i) + b.take(j);
    assert(a.take(i) + b.take(j + 1) =~= merged.push(b[j]));
    vstd::seq_lib::to_multiset_build(merged, b[j]);
}

/// Sorts the slice and returns the number of inversions that it had.
pub fn count_inversions<T: Ord + Copy>(seq: &mut [T]) -> (c: usize)
    requires
        pairs(old(seq)@.len() as int) <= usize::MAX,
    ensures
        final(seq)@.len() == old(seq)@.len(),
        final(seq)@.to_multiset() == old(seq)@.to_multiset(),
        total_order::<T>() ==> sorted(final(seq)@) && c == inversions(old(seq)@),
{
    let n = seq.len();
    let mut buf: Vec<T> = Vec::new();
    let mut t: usize = 0;
    while t < n
        invariant
            t <= n,
            n == seq@.len(),
            seq@ == old(seq)@,
            buf@.len() == t,
        decreases n - t,
    {
        buf.push(seq[t]);
        t += 1;
    }
    count_inversion_impl(seq, buf.as_mut_slice())
}

} // verus!
