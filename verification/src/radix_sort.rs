//! Radix sort of strings by their bytes.
//!
//! The strings are sorted by counting sort on one byte position after
//! the other, from the last position of the longest string to the first.
//! A string that has no byte at a position counts as having a zero byte
//! there.

use crate::count_sort::{
    bucket, buckets, count_sort, key_of_item, lemma_bucket_origin, lemma_buckets_grow,
    lemma_buckets_locate,
};
use vstd::prelude::*;
use vstd::string::StringSliceAdditionalSpecFns;

verus! {

/// The byte of `b` at position `i`, or zero past its end.
pub open spec fn byte_at(b: Seq<u8>, i: int) -> u8 {
    if 0 <= i < b.len() {
        b[i]
    } else {
        0
    }
}

/// `a` is not above `b` when both are compared byte by byte over the
/// positions from `i` up to, but not including, `n`.
pub open spec fn suffix_le(a: Seq<u8>, b: Seq<u8>, i: int, n: int) -> bool
    decreases n - i,
{
    if i >= n {
        true
    } else if byte_at(a, i) != byte_at(b, i) {
        byte_at(a, i) < byte_at(b, i)
    } else {
        suffix_le(a, b, i + 1, n)
    }
}

/// The longer of two lengths.
pub open spec fn longer(a: nat, b: nat) -> nat {
    if a >= b {
        a
    } else {
        b
    }
}

/// `a` is not above `b` in the order of their bytes, the shorter one
/// padded with zero bytes.
pub open spec fn padded_le(a: Seq<u8>, b: Seq<u8>) -> bool {
    suffix_le(a, b, 0, longer(a.len(), b.len()) as int)
}

/// No string is above a later one, compared over the positions from `i`
/// to `n`.
pub open spec fn sorted_from(s: Seq<&str>, i: int, n: int) -> bool {
    forall|x: int, y: int|
        0 <= x < y < s.len() ==> suffix_le(
            (#[trigger] s[x]).spec_bytes(),
            (#[trigger] s[y]).spec_bytes(),
            i,
            n,
        )
}

/// No string is above a later one.
pub open spec fn sorted_by_bytes(s: Seq<&str>) -> bool {
    forall|x: int, y: int|
        0 <= x < y < s.len() ==> padded_le(
            (#[trigger] s[x]).spec_bytes(),
            (#[trigger] s[y]).spec_bytes(),
        )
}

/// No string has more than `n` bytes.
pub open spec fn fits(s: Seq<&str>, n: int) -> bool {
    forall|x: int| 0 <= x < s.len() ==> (#[trigger] s[x]).spec_bytes().len() <= n
}

/// Positions past the end of both strings make no difference.
proof fn lemma_suffix_le_beyond(a: Seq<u8>, b: Seq<u8>, i: int, m: int, n: int)
    requires
        0 <= i,
        a.len() <= m <= n,
        b.len() <= m,
    ensures
        suffix_le(a, b, i, n) == suffix_le(a, b, i, m),
    decreases n - i,
{
    if i < n {
        lemma_suffix_le_beyond(a, b, i + 1, m, n);
    }
    if i >= m && i < n {
        lemma_suffix_le_past(a, b, i + 1, n);
    }
}

proof fn lemma_suffix_le_past(a: Seq<u8>, b: Seq<u8>, i: int, n: int)
    requires
        a.len() <= i,
        b.len() <= i,
    ensures
        suffix_le(a, b, i, n),
    decreases n - i,
{
    if i < n {
        lemma_suffix_le_past(a, b, i + 1, n);
    }
}

/// One pass of counting sort on position `i` takes strings sorted from
/// position `i + 1` to strings sorted from position `i`.
proof fn lemma_pass<F: Fn(&&str) -> u8>(s: Seq<&str>, f: F, i: int, n: int)
    requires
        0 <= i < n,
        sorted_from(s, i + 1, n),
        forall|t: int|
            0 <= t < s.len() ==> key_of_item(f, #[trigger] s[t]) == byte_at(s[t].spec_bytes(), i),
    ensures
        sorted_from(buckets(s, f, 256), i, n),
{
    let r = buckets(s, f, 256);
    assert forall|x: int, y: int| 0 <= x < y < r.len() implies suffix_le(
        (#[trigger] r[x]).spec_bytes(),
        (#[trigger] r[y]).spec_bytes(),
        i,
        n,
    ) by {
        let (kx, ix) = lemma_buckets_locate(s, f, 256, x);
        let (ky, iy) = lemma_buckets_locate(s, f, 256, y);
        if ky < kx {
            lemma_buckets_grow(s, f, ky + 1, kx);
        }
        if kx == ky {
            lemma_bucket_origin(s, f, kx, ix, iy);
            let (p, q) = choose|p: int, q: int|
                0 <= p <= q < s.len() && (ix < iy ==> p < q) && s[p] == bucket(s, f, kx)[ix]
                    && s[q] == bucket(s, f, kx)[iy] && key_of_item(f, s[p]) == kx && key_of_item(
                    f,
                    s[q],
                ) == kx;
            assert(suffix_le(s[p].spec_bytes(), s[q].spec_bytes(), i + 1, n));
        } else {
            lemma_bucket_origin(s, f, kx, ix, ix);
            let (p, _) = choose|p: int, q: int|
                0 <= p <= q < s.len() && s[p] == bucket(s, f, kx)[ix] && s[q] == bucket(
                    s,
                    f,
                    kx,
                )[ix] && key_of_item(f, s[p]) == kx && key_of_item(f, s[q]) == kx;
            assert(byte_at(s[p].spec_bytes(), i) == kx);
            lemma_bucket_origin(s, f, ky, iy, iy);
            let (q, _) = choose|p: int, q: int|
                0 <= p <= q < s.len() && s[p] == bucket(s, f, ky)[iy] && s[q] == bucket(
                    s,
                    f,
                    ky,
                )[iy] && key_of_item(f, s[p]) == ky && key_of_item(f, s[q]) == ky;
            assert(byte_at(s[q].spec_bytes(), i) == ky);
        }
    }
}

/// A rearrangement of strings that fit `n` bytes fits `n` bytes.
proof fn lemma_fits_rearranged(before: Seq<&str>, after: Seq<&str>, n: int)
    requires
        fits(before, n),
        after.to_multiset() == before.to_multiset(),
    ensures
        fits(after, n),
{
    broadcast use vstd::seq_lib::to_multiset_contains;

    assert forall|x: int| 0 <= x < after.len() implies (#[trigger] after[x]).spec_bytes().len()
        <= n by {
        assert(before.to_multiset().count(after[x]) > 0);
        let t = choose|t: int| 0 <= t < before.len() && before[t] == after[x];
        assert(before[t].spec_bytes().len() <= n);
    }
}

/// Sorts the strings by their bytes. Strings that differ only by zero
/// bytes at the end keep their order.
pub fn ascii_radix_sort(seq: &mut [&str])
    ensures
        final(seq)@.len() == old(seq)@.len(),
        final(seq)@.to_multiset() == old(seq)@.to_multiset(),
        sorted_by_bytes(final(seq)@),
{
    let count = seq.len();
    let mut n: usize = 0;
    let mut t: usize = 0;
    while t < count
        invariant
            t <= count,
            count == seq@.len(),
            seq@ == old(seq)@,
            fits(seq@.take(t as int), n as int),
        decreases count - t,
    {
        let len = seq[t].as_bytes().len();
        if len > n {
            n = len;
        }
        t += 1;
    }
    proof {
        assert(seq@.take(count as int) =~= seq@);
    }
    let mut i: usize = n;
    while i > 0
        invariant
            i <= n,
            count == seq@.len(),
            seq@.to_multiset() == old(seq)@.to_multiset(),
            fits(seq@, n as int),
            sorted_from(seq@, i as int, n as int),
        decreases i,
    {
        i -= 1;
        let ghost before = seq@;
        let key_of = |s: &&str| -> (k: u8)
            ensures
                k == byte_at(s.spec_bytes(), i as int),
            {
                let bytes = s.as_bytes();
                if i < bytes.len() {
                    bytes[i]
                } else {
                    0
                }
            };
        count_sort(seq, key_of);
        proof {
            lemma_pass(before, key_of, i as int, n as int);
            lemma_fits_rearranged(before, seq@, n as int);
        }
    }
    proof {
        let r = seq@;
        assert forall|x: int, y: int| 0 <= x < y < r.len() implies padded_le(
            (#[trigger] r[x]).spec_bytes(),
            (#[trigger] r[y]).spec_bytes(),
        ) by {
            let (a, b) = (r[x].spec_bytes(), r[y].spec_bytes());
            lemma_suffix_le_beyond(a, b, 0, longer(a.len(), b.len()) as int, n as int);
        }
    }
}

} // verus!
