//! Quicksort with a choice of partition schemes.
//!
//! [`quick_sort`] takes the scheme as a function. Three schemes are here:
//! Hoare's, which scans from both ends, and two of Lomuto's, which scan
//! from the front without branching on the comparison; one of them also
//! gathers elements equal to the pivot. Each picks its pivot at random.

use crate::order::{
    greater, le, lemma_le_reflexive, lemma_le_total, lemma_le_transitive, less, lt, same,
    total_order,
};
use crate::random::random_number;
use crate::select::pivot_of;
use crate::slices::{swap, swapped};
use crate::sorting::sorted;
use vstd::prelude::*;

verus! {

/// `after` is `before` rearranged around a pivot: the elements from `i`
/// up to, but not including, `j` are the pivot and elements equal to it,
/// nothing before them is above the pivot and nothing after them is below
/// it.
pub open spec fn parted<T: Ord>(before: Seq<T>, after: Seq<T>, i: int, j: int) -> bool {
    &&& after.len() == before.len()
    &&& after.to_multiset() == before.to_multiset()
    &&& 0 <= i < j <= after.len()
    &&& forall|k: int| 0 <= k < i ==> le(#[trigger] after[k], after[i])
    &&& forall|k: int| i <= k < j ==> le(#[trigger] after[k], after[i]) && le(after[i], after[k])
    &&& forall|k: int| j <= k < after.len() ==> le(after[i], #[trigger] after[k])
}

/// Sorted parts around a pivot make a sorted whole.
proof fn lemma_parts_sorted<T: Ord>(
    s: Seq<T>,
    left: Seq<T>,
    right: Seq<T>,
    i: int,
    j: int,
)
    requires
        total_order::<T>(),
        0 <= i < j <= s.len(),
        forall|k: int| 0 <= k < i ==> le(#[trigger] s[k], s[i]),
        forall|k: int| i <= k < j ==> le(#[trigger] s[k], s[i]) && le(s[i], s[k]),
        forall|k: int| j <= k < s.len() ==> le(s[i], #[trigger] s[k]),
        left.to_multiset() == s.subrange(0, i).to_multiset(),
        right.to_multiset() == s.subrange(j, s.len() as int).to_multiset(),
        sorted(left),
        sorted(right),
    ensures
        sorted(left + s.subrange(i, j) + right),
        (left + s.subrange(i, j) + right).to_multiset() == s.to_multiset(),
{
    broadcast use vstd::seq_lib::to_multiset_contains;

    let (a, m, b) = (s.subrange(0, i), s.subrange(i, j), s.subrange(j, s.len() as int));
    let pivot = s[i];
    let r = left + m + right;
    vstd::seq_lib::to_multiset_len(left);
    vstd::seq_lib::to_multiset_len(a);
    vstd::seq_lib::to_multiset_len(right);
    vstd::seq_lib::to_multiset_len(b);
    assert(s =~= a + m + b);
    vstd::seq_lib::lemma_multiset_commutative(a, m);
    vstd::seq_lib::lemma_multiset_commutative(a + m, b);
    vstd::seq_lib::lemma_multiset_commutative(left, m);
    vstd::seq_lib::lemma_multiset_commutative(left + m, right);
    assert forall|k: int| 0 <= k < left.len() implies le(#[trigger] left[k], pivot) by {
        assert(a.to_multiset().count(left[k]) > 0);
        let t = choose|t: int| 0 <= t < a.len() && a[t] == left[k];
        assert(a[t] == s[t]);
    }
    assert forall|k: int| 0 <= k < right.len() implies le(pivot, #[trigger] right[k]) by {
        assert(b.to_multiset().count(right[k]) > 0);
        let t = choose|t: int| 0 <= t < b.len() && b[t] == right[k];
        assert(b[t] == s[j + t]);
    }
    assert forall|x: int, y: int| 0 <= x <= y < r.len() implies le(r[x], r[y]) by {
        let (ex, ey) = (r[x], r[y]);
        if i <= y && x < j {
            // at least one of the two is on the pivot's side of the other
            lemma_le_transitive(ex, pivot, ey);
        }
    }
}

/// Sorts the slice: partitions it with the given scheme and sorts the
/// parts before and after the pivot in the same way.
///
/// The scheme must be a function that can be called on every slice of
/// two or more elements and rearranges it around a pivot, see [`parted`].
pub fn quick_sort<T: Ord, F: Fn(&mut [T]) -> (usize, usize)>(seq: &mut [T], partition: &F)
    requires
        total_order::<T>(),
        forall|s: &mut [T]| s@.len() >= 2 ==> call_requires(*partition, (s,)),
        forall|s: &mut [T], r: (usize, usize)|
            call_ensures(*partition, (s,), r) ==> parted(s@, final(s)@, r.0 as int, r.1 as int),
    ensures
        final(seq)@.len() == old(seq)@.len(),
        final(seq)@.to_multiset() == old(seq)@.to_multiset(),
        sorted(final(seq)@),
    decreases old(seq)@.len(),
{
    let n = seq.len();
    if n < 2 {
        proof {
            if n == 1 {
                lemma_le_reflexive(seq@[0]);
            }
        }
        return ;
    }
    let r = partition(seq);
    let (i, j) = (r.0, r.1);
    let ghost s = seq@;
    assert(parted(old(seq)@, s, i as int, j as int));
    let (left, tail) = seq.split_at_mut(i);
    let (middle, right) = tail.split_at_mut(j - i);
    proof {
        assert(middle@ =~= s.subrange(i as int, j as int));
        assert(right@ =~= s.subrange(j as int, n as int));
    }
    quick_sort(left, partition);
    quick_sort(right, partition);
    proof {
        lemma_parts_sorted(s, left@, right@, i as int, j as int);
        assert(left@ + (middle@ + right@) =~= left@ + middle@ + right@);
    }
}

/// Hoare's scheme: scans from both ends towards the middle and exchanges
/// elements that are on the wrong side of the pivot. The pivot ends up at
/// the place returned first; the second is the place after it.
pub fn hoare_partition<T: Ord>(seq: &mut [T]) -> (r: (usize, usize))
    requires
        total_order::<T>(),
        old(seq)@.len() >= 2,
    ensures
        parted(old(seq)@, final(seq)@, r.0 as int, r.1 as int),
        r.1 == r.0 + 1,
{
    hoare_partition_around(seq, random_number())
}

/// Hoare's scheme around the pivot that `pick` picks, see [`pivot_of`].
pub fn hoare_partition_around<T: Ord>(seq: &mut [T], pick: usize) -> (r: (usize, usize))
    requires
        total_order::<T>(),
        old(seq)@.len() >= 2,
    ensures
        parted(old(seq)@, final(seq)@, r.0 as int, r.1 as int),
        r.1 == r.0 + 1,
        final(seq)@[r.0 as int] == pivot_of(old(seq)@, pick as int),
{
    let p = crate::select::hoare_partition_around(seq, pick);
    let _ = seq.len();
    proof {
        lemma_le_reflexive(seq@[p as int]);
    }
    (p, p + 1)
}

/// A mask of all ones lets a number through and a mask of zero lets
/// nothing through.
proof fn lemma_mask(d: usize)
    ensures
        !0usize & d == d,
        0usize & d == 0,
{
    assert(!0usize & d == d) by (bit_vector);
    assert(0usize & d == 0) by (bit_vector);
}

/// The elements after the first are rearranged so far: those before `i`
/// are below the first element and those from `i` up to `j` are not.
spec fn scanned<T: Ord>(s: Seq<T>, i: int, j: int) -> bool {
    &&& forall|k: int| 1 <= k < i ==> lt(#[trigger] s[k], s[0])
    &&& forall|k: int| i <= k < j ==> !lt(#[trigger] s[k], s[0])
}

/// The scan that both of Lomuto's schemes begin with. It puts the element
/// that `pick` picks first as the pivot, moves the elements below the pivot in
/// front of the others, and puts the pivot between the two groups. The
/// result is the pivot's place.
///
/// Whether an element is below the pivot decides, without a branch, by
/// how far it is moved: `delta` is the distance to the first element not
/// below the pivot or zero.
fn lomuto_scan<T: Ord + Copy>(seq: &mut [T], pick: usize) -> (p: usize)
    requires
        total_order::<T>(),
        old(seq)@.len() >= 2,
    ensures
        parted(old(seq)@, final(seq)@, p as int, p + 1),
        final(seq)@[p as int] == pivot_of(old(seq)@, pick as int),
{
    let n = seq.len();
    let pick = pick % n;
    swap(seq, 0, pick);
    if greater(&seq[0], &seq[n - 1]) {
        swap(seq, 0, n - 1);
    }
    proof {
        lemma_le_total(seq@[0], seq@[n - 1]);
        lemma_le_total(seq@[n - 1], seq@[0]);
    }
    let ghost pivot = seq@[0];
    let mut i: usize = 1;
    while less(&seq[i], &seq[0])
        invariant
            1 <= i < n,
            n == seq@.len(),
            pivot == seq@[0],
            total_order::<T>(),
            !lt(seq@[n - 1], pivot),
            seq@.to_multiset() == old(seq)@.to_multiset(),
            forall|k: int| 1 <= k < i ==> lt(#[trigger] seq@[k], pivot),
        decreases n - i,
    {
        i += 1;
    }
    let mut j: usize = i + 1;
    while j < n
        invariant
            1 <= i < j <= n,
            n == seq@.len(),
            pivot == seq@[0],
            total_order::<T>(),
            seq@.to_multiset() == old(seq)@.to_multiset(),
            scanned(seq@, i as int, j as int),
        decreases n - j,
    {
        let ghost before = seq@;
        let x = seq[j];
        let below = less(&x, &seq[0]);
        let smaller: usize = if below {
            !0
        } else {
            0
        };
        let delta = smaller & (j - i);
        proof {
            lemma_mask((j - i) as usize);
        }
        let moved = seq[i];
        seq[i + delta] = moved;
        seq[j - delta] = x;
        proof {
            if below {
                assert(seq@ =~= swapped(before, i as int, j as int));
                crate::slices::lemma_swapped_multiset(before, i as int, j as int);
            } else {
                assert(seq@ =~= before);
            }
        }
        if below {
            i += 1;
        }
        j += 1;
    }
    i -= 1;
    proof {
        let s = seq@;
        assert forall|k: int| 1 <= k <= i implies le(#[trigger] s[k], pivot) by {
            lemma_le_total(s[k], pivot);
        }
        assert forall|k: int| i < k < s.len() implies le(pivot, #[trigger] s[k]) by {
            lemma_le_total(s[k], pivot);
        }
        lemma_le_reflexive(pivot);
    }
    swap(seq, 0, i);
    i
}

/// Lomuto's scheme without gathering: the pivot ends up at the place
/// returned first; the second is the place after it.
pub fn lomuto_partition_nonequal<T: Ord + Copy>(seq: &mut [T]) -> (r: (usize, usize))
    requires
        total_order::<T>(),
        old(seq)@.len() >= 2,
    ensures
        parted(old(seq)@, final(seq)@, r.0 as int, r.1 as int),
        r.1 == r.0 + 1,
{
    lomuto_partition_nonequal_around(seq, random_number())
}

/// Lomuto's scheme without gathering, around the pivot that `pick` picks,
/// see [`pivot_of`].
pub fn lomuto_partition_nonequal_around<T: Ord + Copy>(seq: &mut [T], pick: usize) -> (r: (
    usize,
    usize,
))
    requires
        total_order::<T>(),
        old(seq)@.len() >= 2,
    ensures
        parted(old(seq)@, final(seq)@, r.0 as int, r.1 as int),
        r.1 == r.0 + 1,
        final(seq)@[r.0 as int] == pivot_of(old(seq)@, pick as int),
{
    let p = lomuto_scan(seq, pick);
    let _ = seq.len();
    (p, p + 1)
}

/// The elements from `i` up to `j` are the pivot at `i` and elements
/// equal to it, and nothing after `i` is below the pivot.
spec fn gathered<T: Ord>(s: Seq<T>, i: int, j: int) -> bool {
    &&& forall|k: int| i <= k < j ==> le(#[trigger] s[k], s[i]) && le(s[i], s[k])
    &&& forall|k: int| i < k < s.len() ==> le(s[i], #[trigger] s[k])
}

/// Lomuto's scheme with gathering: after the scan, elements equal to the
/// pivot are moved next to it, again without a branch. The pivot ends up
/// at the place returned first; the second is the place after the
/// elements gathered.
pub fn lomuto_partition<T: Ord + Copy>(seq: &mut [T]) -> (r: (usize, usize))
    requires
        total_order::<T>(),
        old(seq)@.len() >= 2,
    ensures
        parted(old(seq)@, final(seq)@, r.0 as int, r.1 as int),
{
    lomuto_partition_around(seq, random_number())
}

/// Lomuto's scheme with gathering, around the pivot that `pick` picks,
/// see [`pivot_of`].
pub fn lomuto_partition_around<T: Ord + Copy>(seq: &mut [T], pick: usize) -> (r: (usize, usize))
    requires
        total_order::<T>(),
        old(seq)@.len() >= 2,
    ensures
        parted(old(seq)@, final(seq)@, r.0 as int, r.1 as int),
        final(seq)@[r.0 as int] == pivot_of(old(seq)@, pick as int),
{
    let n = seq.len();
    let i = lomuto_scan(seq, pick);
    let ghost parted_once = seq@;
    let ghost pivot = seq@[i as int];
    let mut j: usize = i + 1;
    while j < n && less(&seq[j], &seq[i])
        invariant
            j == i + 1,
            i < n,
            n == seq@.len(),
            seq@ == parted_once,
            total_order::<T>(),
            forall|k: int| i < k < n ==> le(parted_once[i as int], #[trigger] parted_once[k]),
        decreases n - j,
    {
        proof {
            lemma_le_total(seq@[j as int], seq@[i as int]);
            assert(le(parted_once[i as int], parted_once[j as int]));
        }
        j += 1;
    }
    let mut k: usize = if j < n {
        j + 1
    } else {
        j
    };
    while k < n
        invariant
            i < j <= n,
            j < k || k == n,
            k <= n,
            n == seq@.len(),
            pivot == seq@[i as int],
            total_order::<T>(),
            seq@.to_multiset() == parted_once.to_multiset(),
            seq@.subrange(0, i + 1) == parted_once.subrange(0, i + 1),
            gathered(seq@, i as int, j as int),
        decreases n - k,
    {
        let ghost before = seq@;
        let x = seq[k];
        let equal = same(&x, &seq[i]);
        let smaller: usize = if equal {
            !0
        } else {
            0
        };
        let delta = smaller & (k - j);
        proof {
            lemma_mask((k - j) as usize);
        }
        let moved = seq[j];
        seq[j + delta] = moved;
        seq[k - delta] = x;
        proof {
            if equal {
                assert(seq@ =~= swapped(before, j as int, k as int));
                crate::slices::lemma_swapped_multiset(before, j as int, k as int);
            } else {
                assert(seq@ =~= before);
            }
            assert(seq@.subrange(0, i + 1) =~= before.subrange(0, i + 1));
        }
        if equal {
            j += 1;
        }
        k += 1;
    }
    proof {
        let s = seq@;
        assert forall|t: int| 0 <= t < i implies le(#[trigger] s[t], s[i as int]) by {
            assert(s[t] == s.subrange(0, i + 1)[t]);
            assert(s[i as int] == s.subrange(0, i + 1)[i as int]);
            assert(parted_once[t] == parted_once.subrange(0, i + 1)[t]);
            assert(parted_once[i as int] == parted_once.subrange(0, i + 1)[i as int]);
        }
    }
    (i, j)
}

} // verus!
