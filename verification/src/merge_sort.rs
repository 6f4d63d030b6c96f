//! Merge sort without room of its own.
//!
//! [`merge_sort_prosperous`] sorts with the help of a second slice of the
//! same length: it leaves the second slice sorted and hands the elements
//! that do not fit there back in the first. [`merge_sort_inplace`] sorts a
//! slice by using its own unsorted part as that second slice: it sorts
//! the back half, then again and again half of what is left in front and
//! merges it into the sorted back, until one element is left to insert.
//! Slices of fewer than sixteen elements are sorted by shell sort.

use crate::order::{at_most, le, lemma_le_reflexive, lemma_le_total, lemma_le_transitive, total_order};
use crate::slices::{lemma_swapped_multiset, swap, swapped};
use crate::sorting::{all_le, lemma_all_le_transitive, lemma_sorted_push, shell_sort, sorted};
use vstd::prelude::*;

verus! {

/// The first half and the last half of a slice, both of the same length;
/// a slice of odd length has one element between them.
pub fn split_equal<T>(seq: &mut [T]) -> (r: (&mut [T], &mut [T]))
    ensures
        r.0@ == old(seq)@.subrange(0, old(seq)@.len() as int / 2),
        r.1@ == old(seq)@.subrange(
            old(seq)@.len() as int / 2 + old(seq)@.len() as int % 2,
            old(seq)@.len() as int,
        ),
        final(seq)@ == final(r.0)@ + old(seq)@.subrange(
            old(seq)@.len() as int / 2,
            old(seq)@.len() as int / 2 + old(seq)@.len() as int % 2,
        ) + final(r.1)@,
{
    let n = seq.len();
    let (l, r) = seq.split_at_mut(n / 2);
    let (_, r) = r.split_at_mut(n % 2);
    (l, r)
}

/// Exchanging elements of two of three sequences in a row keeps the
/// elements of the row.
proof fn lemma_exchange<T>(a: Seq<T>, b: Seq<T>, c: Seq<T>, i: int, k: int)
    requires
        0 <= i < a.len(),
        0 <= k < c.len(),
    ensures
        (a.update(i, c[k]) + b + c.update(k, a[i])).to_multiset() == (a + b + c).to_multiset(),
{
    let row = a + b + c;
    assert(a.update(i, c[k]) + b + c.update(k, a[i]) =~= swapped(row, i, a.len() + b.len() + k));
    lemma_swapped_multiset(row, i, a.len() + b.len() + k);
}

/// As [`lemma_exchange`], for the second and the third sequence.
proof fn lemma_exchange_second<T>(a: Seq<T>, b: Seq<T>, c: Seq<T>, j: int, k: int)
    requires
        0 <= j < b.len(),
        0 <= k < c.len(),
    ensures
        (a + b.update(j, c[k]) + c.update(k, b[j])).to_multiset() == (a + b + c).to_multiset(),
{
    let row = a + b + c;
    assert(a + b.update(j, c[k]) + c.update(k, b[j]) =~= swapped(
        row,
        a.len() + j,
        a.len() + b.len() + k,
    ));
    lemma_swapped_multiset(row, a.len() + j, a.len() + b.len() + k);
}

/// Sorts with a second slice of the same length for room: afterwards `b`
/// is sorted, and `a` and `b` together hold what they held before.
///
/// The two halves of `b` serve as room to sort the two halves of `a`
/// where they are, and the sorted halves are then merged into `b`,
/// each element changing places with the one it displaces.
pub fn merge_sort_prosperous<T: Ord + Copy>(a: &mut [T], b: &mut [T])
    requires
        old(a)@.len() == old(b)@.len(),
    ensures
        final(a)@.len() == old(a)@.len(),
        final(b)@.len() == old(b)@.len(),
        (final(a)@ + final(b)@).to_multiset() == (old(a)@ + old(b)@).to_multiset(),
        total_order::<T>() ==> sorted(final(b)@),
    decreases old(a)@.len(),
{
    let n = b.len();
    if n <= 1 {
        proof {
            if total_order::<T>() && n == 1 {
                lemma_le_reflexive(b@[0]);
            }
        }
        return ;
    }
    if n <= 15 {
        let ghost before = b@;
        shell_sort(b);
        proof {
            vstd::seq_lib::lemma_multiset_commutative(a@, before);
            vstd::seq_lib::lemma_multiset_commutative(a@, b@);
        }
        return ;
    }
    let ghost (a0, b0) = (a@, b@);
    let (la, ra) = a.split_at_mut(n / 2);
    let (lb, rb) = b.split_at_mut(n / 2);
    let ghost (la0, ra0, lb0, rb0) = (la@, ra@, lb@, rb@);
    merge_sort_prosperous(lb, la);
    merge_sort_prosperous(rb, ra);
    let ghost (lo, hi) = (la@, ra@);
    let ghost start = b@;
    proof {
        assert(a0 =~= la0 + ra0);
        assert(b0 =~= lb0 + rb0);
        lemma_joint(la0, ra0, lb0, rb0, lo, hi, lb@, rb@);
    }
    let p = la.len();
    let q = ra.len();
    let mut i: usize = 0;
    let mut j: usize = 0;
    let mut k: usize = 0;
    while i < p && j < q
        invariant
            i <= p,
            j <= q,
            k == i + j,
            p + q == n,
            p == la@.len(),
            q == ra@.len(),
            n == b@.len(),
            p == lo.len(),
            q == hi.len(),
            forall|x: int| i <= x < p ==> la@[x] == lo[x],
            forall|x: int| j <= x < q ==> ra@[x] == hi[x],
            (la@ + ra@ + b@).to_multiset() == (lo + hi + start).to_multiset(),
            total_order::<T>() ==> {
                &&& sorted(lo)
                &&& sorted(hi)
                &&& sorted(b@.take(k as int))
                &&& i < p ==> all_le(b@.take(k as int), lo[i as int])
                &&& j < q ==> all_le(b@.take(k as int), hi[j as int])
            },
        decreases n - k,
    {
        let ghost (la1, ra1, b1) = (la@, ra@, b@);
        if at_most(&la[i], &ra[j]) {
            core::mem::swap(&mut la[i], &mut b[k]);
            proof {
                lemma_exchange(la1, ra1, b1, i as int, k as int);
                assert(b@.take(k + 1) =~= b1.take(k as int).push(lo[i as int]));
                if total_order::<T>() {
                    lemma_sorted_push(b1.take(k as int), lo[i as int]);
                    lemma_le_reflexive(lo[i as int]);
                    if i + 1 < p {
                        lemma_all_le_transitive(b1.take(k as int), lo[i as int], lo[i + 1]);
                    }
                }
            }
            i += 1;
        } else {
            core::mem::swap(&mut ra[j], &mut b[k]);
            proof {
                lemma_exchange_second(la1, ra1, b1, j as int, k as int);
                assert(b@.take(k + 1) =~= b1.take(k as int).push(hi[j as int]));
                if total_order::<T>() {
                    lemma_le_total(lo[i as int], hi[j as int]);
                    lemma_sorted_push(b1.take(k as int), hi[j as int]);
                    lemma_le_reflexive(hi[j as int]);
                    if j + 1 < q {
                        lemma_all_le_transitive(b1.take(k as int), hi[j as int], hi[j + 1]);
                    }
                }
            }
            j += 1;
        }
        k += 1;
    }
    while i < p
        invariant
            i <= p,
            j <= q,
            i < p ==> j == q,
            k == i + j,
            p + q == n,
            p == la@.len(),
            q == ra@.len(),
            n == b@.len(),
            p == lo.len(),
            q == hi.len(),
            forall|x: int| i <= x < p ==> la@[x] == lo[x],
            forall|x: int| j <= x < q ==> ra@[x] == hi[x],
            (la@ + ra@ + b@).to_multiset() == (lo + hi + start).to_multiset(),
            total_order::<T>() ==> {
                &&& sorted(lo)
                &&& sorted(hi)
                &&& sorted(b@.take(k as int))
                &&& i < p ==> all_le(b@.take(k as int), lo[i as int])
                &&& j < q ==> all_le(b@.take(k as int), hi[j as int])
            },
        decreases p - i,
    {
        let ghost (la1, ra1, b1) = (la@, ra@, b@);
        core::mem::swap(&mut la[i], &mut b[k]);
        proof {
            lemma_exchange(la1, ra1, b1, i as int, k as int);
            assert(b@.take(k + 1) =~= b1.take(k as int).push(lo[i as int]));
            if total_order::<T>() {
                lemma_sorted_push(b1.take(k as int), lo[i as int]);
                lemma_le_reflexive(lo[i as int]);
                if i + 1 < p {
                    lemma_all_le_transitive(b1.take(k as int), lo[i as int], lo[i + 1]);
                }
            }
        }
        i += 1;
        k += 1;
    }
    while j < q
        invariant
            i == p,
            j <= q,
            k == i + j,
            p + q == n,
            p == la@.len(),
            q == ra@.len(),
            n == b@.len(),
            q == hi.len(),
            forall|x: int| j <= x < q ==> ra@[x] == hi[x],
            (la@ + ra@ + b@).to_multiset() == (lo + hi + start).to_multiset(),
            total_order::<T>() ==> {
                &&& sorted(hi)
                &&& sorted(b@.take(k as int))
                &&& j < q ==> all_le(b@.take(k as int), hi[j as int])
            },
        decreases q - j,
    {
        let ghost (la1, ra1, b1) = (la@, ra@, b@);
        core::mem::swap(&mut ra[j], &mut b[k]);
        proof {
            lemma_exchange_second(la1, ra1, b1, j as int, k as int);
            assert(b@.take(k + 1) =~= b1.take(k as int).push(hi[j as int]));
            if total_order::<T>() {
                lemma_sorted_push(b1.take(k as int), hi[j as int]);
                lemma_le_reflexive(hi[j as int]);
                if j + 1 < q {
                    lemma_all_le_transitive(b1.take(k as int), hi[j as int], hi[j + 1]);
                }
            }
        }
        j += 1;
        k += 1;
    }
    proof {
        assert(b@.take(n as int) =~= b@);
    }
}

/// The elements of two pairs of slices, each pair rearranged among
/// itself, are the elements of all four.
proof fn lemma_joint<T>(
    la0: Seq<T>,
    ra0: Seq<T>,
    lb0: Seq<T>,
    rb0: Seq<T>,
    la: Seq<T>,
    ra: Seq<T>,
    lb: Seq<T>,
    rb: Seq<T>,
)
    requires
        (lb + la).to_multiset() == (lb0 + la0).to_multiset(),
        (rb + ra).to_multiset() == (rb0 + ra0).to_multiset(),
    ensures
        (la + ra + (lb + rb)).to_multiset() == ((la0 + ra0) + (lb0 + rb0)).to_multiset(),
{
    broadcast use vstd::multiset::group_multiset_axioms;

    vstd::seq_lib::lemma_multiset_commutative(lb, la);
    vstd::seq_lib::lemma_multiset_commutative(lb0, la0);
    vstd::seq_lib::lemma_multiset_commutative(rb, ra);
    vstd::seq_lib::lemma_multiset_commutative(rb0, ra0);
    vstd::seq_lib::lemma_multiset_commutative(la, ra);
    vstd::seq_lib::lemma_multiset_commutative(lb, rb);
    vstd::seq_lib::lemma_multiset_commutative(la + ra, lb + rb);
    vstd::seq_lib::lemma_multiset_commutative(la0, ra0);
    vstd::seq_lib::lemma_multiset_commutative(lb0, rb0);
    vstd::seq_lib::lemma_multiset_commutative(la0 + ra0, lb0 + rb0);
    let now = (la + ra + (lb + rb)).to_multiset();
    let then = ((la0 + ra0) + (lb0 + rb0)).to_multiset();
    assert forall|v: T| now.count(v) == then.count(v) by {
        assert((lb + la).to_multiset().count(v) == lb.to_multiset().count(v)
            + la.to_multiset().count(v));
        assert((lb0 + la0).to_multiset().count(v) == lb0.to_multiset().count(v)
            + la0.to_multiset().count(v));
        assert((rb + ra).to_multiset().count(v) == rb.to_multiset().count(v)
            + ra.to_multiset().count(v));
        assert((rb0 + ra0).to_multiset().count(v) == rb0.to_multiset().count(v)
            + ra0.to_multiset().count(v));
        assert(now.count(v) == la.to_multiset().count(v) + ra.to_multiset().count(v)
            + lb.to_multiset().count(v) + rb.to_multiset().count(v));
        assert(then.count(v) == la0.to_multiset().count(v) + ra0.to_multiset().count(v)
            + lb0.to_multiset().count(v) + rb0.to_multiset().count(v));
    }
}

/// A sorted sequence with one element put in where it belongs is sorted.
proof fn lemma_inserted_sorted<T: Ord>(tail: Seq<T>, e: T, at: int)
    requires
        total_order::<T>(),
        sorted(tail),
        0 <= at <= tail.len(),
        all_le(tail.take(at), e),
        at < tail.len() ==> le(e, tail[at]),
    ensures
        sorted(tail.take(at).push(e) + tail.skip(at)),
{
    let r = tail.take(at).push(e) + tail.skip(at);
    assert forall|x: int, y: int| 0 <= x <= y < r.len() implies le(r[x], r[y]) by {
        if x == at && y == at {
            lemma_le_reflexive(e);
        } else if x == at {
            lemma_le_transitive(e, tail[at], tail[y - 1]);
        }
    }
}

/// Sorts the slice without room of its own.
///
/// First the back half is sorted, with the front half as room. Then, as
/// long as more than one element is left in front, half of them are
/// sorted with the other half as room and merged with the sorted back
/// into the places behind what is left. The last element left is
/// inserted.
pub fn merge_sort_inplace<T: Ord + Copy>(seq: &mut [T])
    ensures
        final(seq)@.len() == old(seq)@.len(),
        final(seq)@.to_multiset() == old(seq)@.to_multiset(),
        total_order::<T>() ==> sorted(final(seq)@),
{
    let n = seq.len();
    if n <= 1 {
        proof {
            if total_order::<T>() && n == 1 {
                lemma_le_reflexive(seq@[0]);
            }
        }
        return ;
    }
    if n <= 15 {
        shell_sort(seq);
        return ;
    }
    let ghost middle = seq@.subrange(n as int / 2, n as int / 2 + n as int % 2);
    let ghost (front0, back0) = (
        seq@.subrange(0, n as int / 2),
        seq@.subrange(n as int / 2 + n as int % 2, n as int),
    );
    let (l, r) = split_equal(seq);
    merge_sort_prosperous(l, r);
    proof {
        assert(old(seq)@ =~= front0 + middle + back0);
        lemma_around(front0, middle, back0, l@, r@);
    }
    let mut m: usize = n / 2 + n % 2;
    while m > 1
        invariant
            1 <= m <= n,
            n == seq@.len(),
            seq@.to_multiset() == old(seq)@.to_multiset(),
            total_order::<T>() ==> sorted(seq@.subrange(m as int, n as int)),
        decreases m,
    {
        let p = m / 2;
        let k0 = m / 2 + m % 2;
        let ghost whole = seq@;
        let ghost (front, between, back, rest) = (
            whole.subrange(0, p as int),
            whole.subrange(p as int, k0 as int),
            whole.subrange(k0 as int, m as int),
            whole.subrange(m as int, n as int),
        );
        let (head, tail) = seq.split_at_mut(m);
        let (l, r) = split_equal(head);
        proof {
            assert(l@ =~= front);
            assert(r@ =~= back);
        }
        merge_sort_prosperous(r, l);
        let ghost lo = l@;
        proof {
            assert(whole =~= front + between + back + rest);
            assert(seq@ =~= l@ + between + r@ + rest);
            lemma_around_four(front, between, back, rest, l@, r@);
        }
        let mut i: usize = 0;
        let mut j: usize = m;
        let mut k: usize = k0;
        while i < p && j < n
            invariant
                i <= p <= k0 <= m <= j <= n,
                p + k0 == m,
                k == k0 + i + (j - m),
                n == seq@.len(),
                p == lo.len(),
                n - m == rest.len(),
                forall|x: int| i <= x < p ==> seq@[x] == lo[x],
                forall|x: int| j <= x < n ==> seq@[x] == rest[x - m],
                seq@.to_multiset() == old(seq)@.to_multiset(),
                total_order::<T>() ==> {
                    &&& sorted(lo)
                    &&& sorted(rest)
                    &&& sorted(seq@.subrange(k0 as int, k as int))
                    &&& i < p ==> all_le(seq@.subrange(k0 as int, k as int), lo[i as int])
                    &&& j < n ==> all_le(seq@.subrange(k0 as int, k as int), rest[j - m])
                },
            decreases n - k,
        {
            let ghost s1 = seq@;
            let ghost out = s1.subrange(k0 as int, k as int);
            if at_most(&seq[i], &seq[j]) {
                swap(seq, i, k);
                proof {
                    assert(seq@.subrange(k0 as int, k + 1) =~= out.push(lo[i as int]));
                    if total_order::<T>() {
                        lemma_sorted_push(out, lo[i as int]);
                        lemma_le_reflexive(lo[i as int]);
                        if i + 1 < p {
                            lemma_all_le_transitive(out, lo[i as int], lo[i + 1]);
                        }
                    }
                }
                i += 1;
            } else {
                swap(seq, j, k);
                proof {
                    assert(seq@.subrange(k0 as int, k + 1) =~= out.push(rest[j - m]));
                    if total_order::<T>() {
                        lemma_le_total(lo[i as int], rest[j - m]);
                        lemma_sorted_push(out, rest[j - m]);
                        lemma_le_reflexive(rest[j - m]);
                        if j + 1 < n {
                            lemma_all_le_transitive(out, rest[j - m], rest[j - m + 1]);
                        }
                    }
                }
                j += 1;
            }
            k += 1;
        }
        while i < p
            invariant
                i <= p <= k0 <= m <= j <= n,
                i < p ==> j == n,
                p + k0 == m,
                k == k0 + i + (j - m),
                n == seq@.len(),
                p == lo.len(),
                n - m == rest.len(),
                forall|x: int| i <= x < p ==> seq@[x] == lo[x],
                forall|x: int| j <= x < n ==> seq@[x] == rest[x - m],
                seq@.to_multiset() == old(seq)@.to_multiset(),
                total_order::<T>() ==> {
                    &&& sorted(lo)
                    &&& sorted(rest)
                    &&& sorted(seq@.subrange(k0 as int, k as int))
                    &&& i < p ==> all_le(seq@.subrange(k0 as int, k as int), lo[i as int])
                    &&& j < n ==> all_le(seq@.subrange(k0 as int, k as int), rest[j - m])
                },
            decreases p - i,
        {
            let ghost s1 = seq@;
            let ghost out = s1.subrange(k0 as int, k as int);
            swap(seq, i, k);
            proof {
                assert(seq@.subrange(k0 as int, k + 1) =~= out.push(lo[i as int]));
                if total_order::<T>() {
                    lemma_sorted_push(out, lo[i as int]);
                    lemma_le_reflexive(lo[i as int]);
                    if i + 1 < p {
                        lemma_all_le_transitive(out, lo[i as int], lo[i + 1]);
                    }
                }
            }
            i += 1;
            k += 1;
        }
        while j < n
            invariant
                i == p,
                p <= k0 <= m <= j <= n,
                p + k0 == m,
                k == k0 + i + (j - m),
                n == seq@.len(),
                n - m == rest.len(),
                forall|x: int| j <= x < n ==> seq@[x] == rest[x - m],
                seq@.to_multiset() == old(seq)@.to_multiset(),
                total_order::<T>() ==> {
                    &&& sorted(rest)
                    &&& sorted(seq@.subrange(k0 as int, k as int))
                    &&& j < n ==> all_le(seq@.subrange(k0 as int, k as int), rest[j - m])
                },
            decreases n - j,
        {
            let ghost s1 = seq@;
            let ghost out = s1.subrange(k0 as int, k as int);
            swap(seq, j, k);
            proof {
                assert(seq@.subrange(k0 as int, k + 1) =~= out.push(rest[j - m]));
                if total_order::<T>() {
                    lemma_sorted_push(out, rest[j - m]);
                    lemma_le_reflexive(rest[j - m]);
                    if j + 1 < n {
                        lemma_all_le_transitive(out, rest[j - m], rest[j - m + 1]);
                    }
                }
            }
            j += 1;
            k += 1;
        }
        m = k0;
    }
    let ghost tail = seq@.subrange(1, n as int);
    let ghost e = seq@[0];
    let mut i: usize = 1;
    while i < n && at_most(&seq[i], &seq[i - 1])
        invariant
            1 <= i <= n,
            n == seq@.len(),
            n - 1 == tail.len(),
            seq@ == tail.take(i - 1).push(e) + tail.skip(i - 1),
            seq@.to_multiset() == old(seq)@.to_multiset(),
            total_order::<T>() ==> sorted(tail) && all_le(tail.take(i - 1), e),
        decreases n - i,
    {
        let ghost s1 = seq@;
        swap(seq, i - 1, i);
        i += 1;
    }
    proof {
        if total_order::<T>() {
            if i < n {
                lemma_le_total(e, tail[i - 1]);
                lemma_le_total(tail[i - 1], e);
            }
            lemma_inserted_sorted(tail, e, i - 1);
        }
    }
}

/// Two of three sequences in a row rearranged among themselves.
proof fn lemma_around<T>(a0: Seq<T>, mid: Seq<T>, b0: Seq<T>, a: Seq<T>, b: Seq<T>)
    requires
        (a + b).to_multiset() == (a0 + b0).to_multiset(),
    ensures
        (a + mid + b).to_multiset() == (a0 + mid + b0).to_multiset(),
{
    broadcast use vstd::multiset::group_multiset_axioms;

    vstd::seq_lib::lemma_multiset_commutative(a, b);
    vstd::seq_lib::lemma_multiset_commutative(a0, b0);
    vstd::seq_lib::lemma_multiset_commutative(a, mid);
    vstd::seq_lib::lemma_multiset_commutative(a0, mid);
    vstd::seq_lib::lemma_multiset_commutative(a + mid, b);
    vstd::seq_lib::lemma_multiset_commutative(a0 + mid, b0);
    let now = (a + mid + b).to_multiset();
    let then = (a0 + mid + b0).to_multiset();
    assert forall|v: T| now.count(v) == then.count(v) by {
        assert((a + b).to_multiset().count(v) == a.to_multiset().count(v) + b.to_multiset().count(
            v,
        ));
        assert((a0 + b0).to_multiset().count(v) == a0.to_multiset().count(v)
            + b0.to_multiset().count(v));
        assert(now.count(v) == a.to_multiset().count(v) + mid.to_multiset().count(v)
            + b.to_multiset().count(v));
        assert(then.count(v) == a0.to_multiset().count(v) + mid.to_multiset().count(v)
            + b0.to_multiset().count(v));
    }
}

/// As [`lemma_around`], with a fourth sequence behind the three.
proof fn lemma_around_four<T>(
    a0: Seq<T>,
    mid: Seq<T>,
    b0: Seq<T>,
    rest: Seq<T>,
    a: Seq<T>,
    b: Seq<T>,
)
    requires
        (b + a).to_multiset() == (b0 + a0).to_multiset(),
    ensures
        (a + mid + b + rest).to_multiset() == (a0 + mid + b0 + rest).to_multiset(),
{
    broadcast use vstd::multiset::group_multiset_axioms;

    vstd::seq_lib::lemma_seq_union_to_multiset_commutative(a, b);
    vstd::seq_lib::lemma_seq_union_to_multiset_commutative(a0, b0);
    lemma_around(a0, mid, b0, a, b);
    vstd::seq_lib::lemma_multiset_commutative(a + mid + b, rest);
    vstd::seq_lib::lemma_multiset_commutative(a0 + mid + b0, rest);
}

} // verus!
