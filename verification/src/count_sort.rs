//! Counting sort by a one-byte key.
//!
//! The sort is stable: it gathers the elements with key `0`, then those
//! with key `1` and so on, each group in the order in which its elements
//! stood. That is how the result is stated, see [`buckets`].

use vstd::prelude::*;

verus! {

/// The key that `f` gives to `x`.
pub open spec fn key_of_item<T, F: Fn(&T) -> u8>(f: F, x: T) -> u8 {
    choose|k: u8| call_ensures(f, (&x,), k)
}

/// `f` can be called on every item and gives each item one key.
pub open spec fn is_key_fn<T, F: Fn(&T) -> u8>(f: F) -> bool {
    &&& forall|x: T| call_requires(f, (&x,))
    &&& forall|x: T, a: u8, b: u8|
        call_ensures(f, (&x,), a) && call_ensures(f, (&x,), b) ==> a == b
}

/// The elements of `s` with key `k`, in the order in which they stand in
/// `s`.
pub open spec fn bucket<T, F: Fn(&T) -> u8>(s: Seq<T>, f: F, k: int) -> Seq<T>
    decreases s.len(),
{
    if s.len() == 0 {
        Seq::empty()
    } else if key_of_item(f, s.last()) == k {
        bucket(s.drop_last(), f, k).push(s.last())
    } else {
        bucket(s.drop_last(), f, k)
    }
}

/// The buckets of the keys below `upto`, one after the other.
pub open spec fn buckets<T, F: Fn(&T) -> u8>(s: Seq<T>, f: F, upto: int) -> Seq<T>
    decreases upto,
{
    if upto <= 0 {
        Seq::empty()
    } else {
        buckets(s, f, upto - 1) + bucket(s, f, upto - 1)
    }
}

/// What one more element does to a bucket.
pub proof fn lemma_bucket_step<T, F: Fn(&T) -> u8>(s: Seq<T>, f: F, k: int, t: int)
    requires
        0 <= t < s.len(),
    ensures
        bucket(s.take(t + 1), f, k) == if key_of_item(f, s[t]) == k {
            bucket(s.take(t), f, k).push(s[t])
        } else {
            bucket(s.take(t), f, k)
        },
{
    assert(s.take(t + 1).drop_last() =~= s.take(t));
}

/// The bucket of a prefix is a prefix of the bucket.
pub proof fn lemma_bucket_prefix<T, F: Fn(&T) -> u8>(s: Seq<T>, f: F, k: int, t: int)
    requires
        0 <= t <= s.len(),
    ensures
        bucket(s.take(t), f, k).len() <= bucket(s, f, k).len(),
        bucket(s.take(t), f, k) == bucket(s, f, k).take(bucket(s.take(t), f, k).len() as int),
    decreases s.len() - t,
{
    if t == s.len() {
        assert(s.take(t) =~= s);
    } else {
        lemma_bucket_prefix(s, f, k, t + 1);
        lemma_bucket_step(s, f, k, t);
        assert(bucket(s.take(t), f, k) =~= bucket(s, f, k).take(
            bucket(s.take(t), f, k).len() as int,
        ));
    }
}

/// An element with key `k` stands in the bucket of `k` behind the
/// elements of that key that stand before it.
pub proof fn lemma_bucket_place<T, F: Fn(&T) -> u8>(s: Seq<T>, f: F, t: int)
    requires
        0 <= t < s.len(),
    ensures
        bucket(s.take(t), f, key_of_item(f, s[t]) as int).len() < bucket(
            s,
            f,
            key_of_item(f, s[t]) as int,
        ).len(),
        bucket(s, f, key_of_item(f, s[t]) as int)[bucket(
            s.take(t),
            f,
            key_of_item(f, s[t]) as int,
        ).len() as int] == s[t],
{
    let k = key_of_item(f, s[t]) as int;
    lemma_bucket_step(s, f, k, t);
    lemma_bucket_prefix(s, f, k, t + 1);
    let longer = bucket(s.take(t + 1), f, k);
    assert(bucket(s, f, k).take(longer.len() as int)[longer.len() - 1] == s[t]);
}

/// Every element of a bucket has the bucket's key and comes from the
/// sequence, and elements of a bucket stand in the order of their places
/// in the sequence.
pub proof fn lemma_bucket_origin<T, F: Fn(&T) -> u8>(s: Seq<T>, f: F, k: int, a: int, b: int)
    requires
        0 <= a <= b < bucket(s, f, k).len(),
    ensures
        exists|p: int, q: int|
            0 <= p <= q < s.len() && (a < b ==> p < q) && s[p] == bucket(s, f, k)[a] && s[q]
                == bucket(s, f, k)[b] && key_of_item(f, s[p]) == k && key_of_item(f, s[q]) == k,
    decreases s.len(),
{
    let whole = bucket(s, f, k);
    let front = s.drop_last();
    let last = s.len() - 1;
    if key_of_item(f, s.last()) == k && b == whole.len() - 1 {
        if a != b {
            lemma_bucket_origin(front, f, k, a, a);
            let (p, q) = choose|p: int, q: int|
                0 <= p <= q < front.len() && front[p] == bucket(front, f, k)[a] && front[q]
                    == bucket(front, f, k)[a] && key_of_item(f, front[p]) == k && key_of_item(
                    f,
                    front[q],
                ) == k;
            assert(s[p] == whole[a] && s[last] == whole[b]);
        }
    } else {
        lemma_bucket_origin(front, f, k, a, b);
        let (p, q) = choose|p: int, q: int|
            0 <= p <= q < front.len() && (a < b ==> p < q) && front[p] == bucket(front, f, k)[a]
                && front[q] == bucket(front, f, k)[b] && key_of_item(f, front[p]) == k
                && key_of_item(f, front[q]) == k;
        assert(s[p] == whole[a] && s[q] == whole[b]);
    }
}

/// One more element makes the buckets below `upto` longer by one if its
/// key is below `upto`, and leaves their length alone if not.
proof fn lemma_buckets_len_step<T, F: Fn(&T) -> u8>(s: Seq<T>, f: F, upto: int)
    requires
        s.len() > 0,
        0 <= upto,
    ensures
        buckets(s, f, upto).len() == buckets(s.drop_last(), f, upto).len() + if key_of_item(
            f,
            s.last(),
        ) < upto {
            1int
        } else {
            0int
        },
    decreases upto,
{
    if upto > 0 {
        lemma_buckets_len_step(s, f, upto - 1);
    }
}

/// The buckets of all keys hold as many elements as the sequence.
pub proof fn lemma_buckets_len<T, F: Fn(&T) -> u8>(s: Seq<T>, f: F)
    ensures
        buckets(s, f, 256).len() == s.len(),
    decreases s.len(),
{
    if s.len() == 0 {
        lemma_buckets_empty(s, f, 256);
    } else {
        lemma_buckets_len(s.drop_last(), f);
        lemma_buckets_len_step(s, f, 256);
    }
}

proof fn lemma_buckets_empty<T, F: Fn(&T) -> u8>(s: Seq<T>, f: F, upto: int)
    requires
        s.len() == 0,
    ensures
        buckets(s, f, upto).len() == 0,
    decreases upto,
{
    if upto > 0 {
        lemma_buckets_empty(s, f, upto - 1);
    }
}

/// Where the bucket of `k` lies in the row of buckets: behind the buckets
/// of the keys below `k`.
pub proof fn lemma_buckets_index<T, F: Fn(&T) -> u8>(s: Seq<T>, f: F, upto: int, k: int, i: int)
    requires
        0 <= k < upto,
        0 <= i < bucket(s, f, k).len(),
    ensures
        buckets(s, f, k).len() + i < buckets(s, f, k + 1).len() <= buckets(s, f, upto).len(),
        buckets(s, f, upto)[buckets(s, f, k).len() + i] == bucket(s, f, k)[i],
    decreases upto,
{
    if k < upto - 1 {
        lemma_buckets_index(s, f, upto - 1, k, i);
    }
}

/// Every place in the row of buckets lies in the bucket of one key.
pub proof fn lemma_buckets_locate<T, F: Fn(&T) -> u8>(s: Seq<T>, f: F, upto: int, x: int) -> (r: (
    int,
    int,
))
    requires
        0 <= x < buckets(s, f, upto).len(),
    ensures
        0 <= r.0 < upto,
        0 <= r.1 < bucket(s, f, r.0).len(),
        x == buckets(s, f, r.0).len() + r.1,
        buckets(s, f, upto)[x] == bucket(s, f, r.0)[r.1],
    decreases upto,
{
    if upto <= 0 {
        (0, 0)
    } else if x < buckets(s, f, upto - 1).len() {
        lemma_buckets_locate(s, f, upto - 1, x)
    } else {
        (upto - 1, x - buckets(s, f, upto - 1).len())
    }
}

/// The lengths of the rows of buckets grow with the keys.
pub proof fn lemma_buckets_grow<T, F: Fn(&T) -> u8>(s: Seq<T>, f: F, a: int, b: int)
    requires
        a <= b,
    ensures
        buckets(s, f, a).len() <= buckets(s, f, b).len(),
    decreases b - a,
{
    if a < b {
        lemma_buckets_grow(s, f, a, b - 1);
    }
}

/// The row of buckets has the elements of the sequence, each as often.
pub proof fn lemma_buckets_multiset<T, F: Fn(&T) -> u8>(s: Seq<T>, f: F)
    ensures
        buckets(s, f, 256).to_multiset() == s.to_multiset(),
    decreases s.len(),
{
    broadcast use vstd::multiset::group_multiset_axioms;

    if s.len() == 0 {
        lemma_buckets_empty(s, f, 256);
        assert(buckets(s, f, 256) =~= s);
    } else {
        let front = s.drop_last();
        let x = s.last();
        lemma_buckets_multiset(front, f);
        lemma_buckets_insert(s, f, 256);
        assert(s =~= front.push(x));
        vstd::seq_lib::to_multiset_build(front, x);
    }
}

/// One more element is one more element in the row of buckets, if its
/// key is among them.
proof fn lemma_buckets_insert<T, F: Fn(&T) -> u8>(s: Seq<T>, f: F, upto: int)
    requires
        s.len() > 0,
    ensures
        buckets(s, f, upto).to_multiset() == if key_of_item(f, s.last()) < upto {
            buckets(s.drop_last(), f, upto).to_multiset().insert(s.last())
        } else {
            buckets(s.drop_last(), f, upto).to_multiset()
        },
    decreases upto,
{
    broadcast use vstd::multiset::group_multiset_axioms;

    let front = s.drop_last();
    let x = s.last();
    if upto > 0 {
        lemma_buckets_insert(s, f, upto - 1);
        let (lo, hi) = (buckets(s, f, upto - 1), bucket(s, f, upto - 1));
        let (lo0, hi0) = (buckets(front, f, upto - 1), bucket(front, f, upto - 1));
        vstd::seq_lib::lemma_multiset_commutative(lo, hi);
        vstd::seq_lib::lemma_multiset_commutative(lo0, hi0);
        if key_of_item(f, x) == upto - 1 {
            vstd::seq_lib::to_multiset_build(hi0, x);
            assert(lo.to_multiset().add(hi.to_multiset()) =~= lo0.to_multiset().add(
                hi0.to_multiset(),
            ).insert(x));
        } else if key_of_item(f, x) < upto - 1 {
            assert(lo.to_multiset().add(hi.to_multiset()) =~= lo0.to_multiset().add(
                hi0.to_multiset(),
            ).insert(x));
        }
    }
}

/// The key of `item`, computed.
fn key_at<T, F: Fn(&T) -> u8>(key_of: &F, item: &T) -> (k: u8)
    requires
        is_key_fn(*key_of),
    ensures
        k == key_of_item(*key_of, *item),
        call_ensures(*key_of, (item,), k),
{
    key_of(item)
}

/// Sorts the slice by the keys that `key_of` gives to its elements;
/// elements with the same key keep their order.
pub fn count_sort<T: Copy, F: Fn(&T) -> u8>(seq: &mut [T], key_of: F)
    requires
        is_key_fn(key_of),
    ensures
        final(seq)@ == buckets(old(seq)@, key_of, 256),
        final(seq)@.len() == old(seq)@.len(),
        final(seq)@.to_multiset() == old(seq)@.to_multiset(),
        forall|t: int|
            0 <= t < old(seq)@.len() ==> call_ensures(
                key_of,
                (&#[trigger] old(seq)@[t],),
                key_of_item(key_of, old(seq)@[t]),
            ),
{
    let ghost s = seq@;
    let n = seq.len();
    proof {
        lemma_buckets_len(s, key_of);
        lemma_buckets_multiset(s, key_of);
    }
    let mut counters: Vec<usize> = Vec::new();
    let mut k: usize = 0;
    while k < 256
        invariant
            k <= 256,
            counters@.len() == k,
            forall|c: int| 0 <= c < k ==> counters@[c] == 0,
        decreases 256 - k,
    {
        counters.push(0);
        k += 1;
    }
    let mut t: usize = 0;
    while t < n
        invariant
            t <= n,
            n == s.len(),
            s == seq@,
            is_key_fn(key_of),
            counters@.len() == 256,
            buckets(s, key_of, 256).len() == n,
            forall|c: int| 0 <= c < 256 ==> #[trigger] counters@[c] == bucket(s.take(t as int), key_of, c).len(),
            forall|x: int|
                0 <= x < t ==> call_ensures(key_of, (&#[trigger] s[x],), key_of_item(key_of, s[x])),
        decreases n - t,
    {
        let key = key_at(&key_of, &seq[t]) as usize;
        proof {
            assert forall|c: int| 0 <= c < 256 implies bucket(s.take(t + 1), key_of, c).len() == (
            #[trigger] counters@[c]) + if c == key {
                1int
            } else {
                0int
            } by {
                lemma_bucket_step(s, key_of, c, t as int);
            }
            lemma_bucket_prefix(s, key_of, key as int, t + 1);
            lemma_buckets_index(
                s,
                key_of,
                256,
                key as int,
                bucket(s, key_of, key as int).len() - 1,
            );
        }
        counters[key] = counters[key] + 1;
        t += 1;
    }
    proof {
        assert(s.take(n as int) =~= s);
        assert(buckets(s, key_of, 0).len() == 0);
    }
    let mut c: usize = 1;
    while c < 256
        invariant
            1 <= c <= 256,
            n == s.len(),
            counters@.len() == 256,
            buckets(s, key_of, 256).len() == n,
            forall|x: int| 0 <= x < c ==> #[trigger] counters@[x] == buckets(s, key_of, x + 1).len(),
            forall|x: int| c <= x < 256 ==> #[trigger] counters@[x] == bucket(s, key_of, x).len(),
        decreases 256 - c,
    {
        proof {
            lemma_buckets_grow(s, key_of, c + 1, 256);
        }
        counters[c] = counters[c] + counters[c - 1];
        c += 1;
    }
    let mut buf: Vec<T> = Vec::new();
    let mut t: usize = 0;
    while t < n
        invariant
            t <= n,
            n == seq@.len(),
            buf@.len() == t,
        decreases n - t,
    {
        buf.push(seq[t]);
        t += 1;
    }
    let mut t: usize = n;
    while t > 0
        invariant
            t <= n,
            n == s.len(),
            s == seq@,
            is_key_fn(key_of),
            buf@.len() == n,
            counters@.len() == 256,
            buckets(s, key_of, 256).len() == n,
            forall|x: int|
                0 <= x < 256 ==> #[trigger] counters@[x] == buckets(s, key_of, x).len() + bucket(
                    s.take(t as int),
                    key_of,
                    x,
                ).len(),
            forall|x: int, i: int|
                0 <= x < 256 && bucket(s.take(t as int), key_of, x).len() <= i < bucket(
                    s,
                    key_of,
                    x,
                ).len() ==> buf@[buckets(s, key_of, x).len() + i] == #[trigger] bucket(
                    s,
                    key_of,
                    x,
                )[i],
        decreases t,
    {
        t -= 1;
        let item = seq[t];
        let key = key_at(&key_of, &item) as usize;
        proof {
            lemma_bucket_place(s, key_of, t as int);
            lemma_bucket_step(s, key_of, key as int, t as int);
            let here = bucket(s.take(t as int), key_of, key as int).len() as int;
            lemma_buckets_index(s, key_of, 256, key as int, here);
            assert forall|x: int| 0 <= x < 256 implies bucket(s.take(t as int), key_of, x).len()
                == bucket(s.take(t + 1), key_of, x).len() - if x == key {
                1int
            } else {
                0int
            } by {
                lemma_bucket_step(s, key_of, x, t as int);
            }
        }
        let ghost place = counters[key as int] - 1;
        counters[key] = counters[key] - 1;
        buf[counters[key]] = item;
        proof {
            assert forall|x: int, i: int|
                0 <= x < 256 && bucket(s.take(t as int), key_of, x).len() <= i < bucket(
                    s,
                    key_of,
                    x,
                ).len() implies buf@[buckets(s, key_of, x).len() + i] == #[trigger] bucket(
                s,
                key_of,
                x,
            )[i] by {
                lemma_buckets_index(s, key_of, 256, x, i);
                if x != key || i != bucket(s.take(t as int), key_of, x).len() {
                    lemma_distinct_places(s, key_of, x, i, key as int, place - buckets(s, key_of, key as int).len());
                }
            }
        }
    }
    proof {
        assert forall|x: int| 0 <= x < n implies buf@[x] == buckets(s, key_of, 256)[x] by {
            let (key, i) = lemma_buckets_locate(s, key_of, 256, x);
        }
        assert(buf@ =~= buckets(s, key_of, 256));
    }
    let mut t: usize = 0;
    while t < n
        invariant
            t <= n,
            n == seq@.len(),
            buf@.len() == n,
            forall|x: int| 0 <= x < t ==> seq@[x] == buf@[x],
        decreases n - t,
    {
        seq[t] = buf[t];
        t += 1;
    }
    proof {
        assert(seq@ =~= buf@);
    }
}

/// Places in the buckets of two keys, or two places in one bucket, are
/// two places in the row of buckets.
proof fn lemma_distinct_places<T, F: Fn(&T) -> u8>(s: Seq<T>, f: F, x: int, i: int, y: int, j: int)
    requires
        0 <= x < 256,
        0 <= y < 256,
        0 <= i < bucket(s, f, x).len(),
        0 <= j < bucket(s, f, y).len(),
        x != y || i != j,
    ensures
        buckets(s, f, x).len() + i != buckets(s, f, y).len() + j,
{
    lemma_buckets_index(s, f, 256, x, i);
    lemma_buckets_index(s, f, 256, y, j);
    if x < y {
        lemma_buckets_grow(s, f, x + 1, y);
    } else if y < x {
        lemma_buckets_grow(s, f, y + 1, x);
    }
}

} // verus!
