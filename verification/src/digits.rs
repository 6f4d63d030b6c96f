//! Decimal digit buffers as mathematical objects.
//!
//! A digit buffer is a sequence of small integers, least significant first.
//! This module says what number such a buffer stands for and collects the
//! facts about that number which the arithmetic in the rest of the crate
//! relies on.

use vstd::prelude::*;

verus! {

/// Ten to the power `e`.
pub open spec fn pow10(e: nat) -> nat
    decreases e,
{
    if e == 0 {
        1
    } else {
        10 * pow10((e - 1) as nat)
    }
}

/// The number a buffer stands for: the sum of `s[i] * 10^i`.
///
/// The entries need not be decimal digits; intermediate buffers hold
/// position-wise sums that have not been carried yet.
pub open spec fn value(s: Seq<i8>) -> int
    decreases s.len(),
{
    if s.len() == 0 {
        0
    } else {
        value(s.drop_last()) + s.last() * pow10((s.len() - 1) as nat)
    }
}

/// Every entry is a decimal digit.
pub open spec fn digits_valid(s: Seq<i8>) -> bool {
    forall|i: int| 0 <= i < s.len() ==> 0 <= #[trigger] s[i] <= 9
}

/// A valid buffer without padding: its most significant digit is not zero.
pub open spec fn canonical(s: Seq<i8>) -> bool {
    digits_valid(s) && (s.len() > 0 ==> s.last() != 0)
}

/// A buffer of `n` zero digits.
pub open spec fn zeros(n: nat) -> Seq<i8> {
    Seq::new(n, |i: int| 0i8)
}

/// The larger of two lengths.
pub open spec fn max_len(a: nat, b: nat) -> nat {
    if a >= b {
        a
    } else {
        b
    }
}

/// The absolute value of an integer.
pub open spec fn abs(v: int) -> nat {
    if v >= 0 {
        v as nat
    } else {
        (-v) as nat
    }
}

/// The sign of an integer: -1, 0 or 1.
pub open spec fn sign_of(v: int) -> int {
    if v > 0 {
        1
    } else if v < 0 {
        -1
    } else {
        0
    }
}

/// The number a sequence of entries stands for when read most significant
/// first.
pub open spec fn msb_value(s: Seq<i8>) -> int
    decreases s.len(),
{
    if s.len() == 0 {
        0
    } else {
        10 * msb_value(s.drop_last()) + s.last()
    }
}

/// The number of decimal digits of `n`; zero has none.
pub open spec fn digit_count(n: nat) -> nat
    decreases n,
{
    if n == 0 {
        0
    } else {
        1 + digit_count(n / 10)
    }
}

/// The most significant decimal digit of `n`; zero for zero.
pub open spec fn leading_digit(n: nat) -> nat
    decreases n,
{
    if n < 10 {
        n
    } else {
        leading_digit(n / 10)
    }
}

pub proof fn lemma_pow10_positive(e: nat)
    ensures
        pow10(e) >= 1,
    decreases e,
{
    if e > 0 {
        lemma_pow10_positive((e - 1) as nat);
    }
}

pub proof fn lemma_pow10_add(a: nat, b: nat)
    ensures
        pow10(a + b) == pow10(a) * pow10(b),
    decreases a,
{
    if a == 0 {
        assert(pow10(a) * pow10(b) == pow10(b)) by (nonlinear_arith)
            requires
                pow10(a) == 1,
        ;
    } else {
        let p = pow10((a - 1) as nat);
        let q = pow10(b);
        lemma_pow10_add((a - 1) as nat, b);
        assert(pow10((a - 1 + b) as nat) == p * q);
        assert(10 * (p * q) == (10 * p) * q) by (nonlinear_arith);
    }
}

pub proof fn lemma_pow10_monotonic(a: nat, b: nat)
    requires
        a <= b,
    ensures
        pow10(a) <= pow10(b),
    decreases b,
{
    if a < b {
        lemma_pow10_monotonic(a, (b - 1) as nat);
    }
}

/// Appending a most significant entry `d` adds `d * 10^len`.
pub proof fn lemma_value_push(s: Seq<i8>, d: i8)
    ensures
        value(s.push(d)) == value(s) + d * pow10(s.len()),
{
    assert(s.push(d).drop_last() =~= s);
}

/// A buffer of zeros stands for zero.
pub proof fn lemma_value_zeros(n: nat)
    ensures
        value(zeros(n)) == 0,
    decreases n,
{
    if n > 0 {
        lemma_value_zeros((n - 1) as nat);
        assert(zeros(n).drop_last() =~= zeros((n - 1) as nat));
    }
}

/// The value of a concatenation: the high part counts `10^len(low)` times.
pub proof fn lemma_value_concat(lo: Seq<i8>, hi: Seq<i8>)
    ensures
        value(lo + hi) == value(lo) + pow10(lo.len()) * value(hi),
    decreases hi.len(),
{
    if hi.len() == 0 {
        assert(pow10(lo.len()) * value(hi) == 0) by (nonlinear_arith)
            requires
                value(hi) == 0,
        ;
    } else {
        let h = hi.drop_last();
        let d = hi.last();
        lemma_value_concat(lo, h);
        assert((lo + hi).drop_last() =~= lo + h);
        assert((lo + hi).last() == d);
        lemma_pow10_add(lo.len(), h.len());
        let p = pow10(lo.len()) as int;
        let q = pow10(h.len()) as int;
        let vh = value(h);
        assert(value(lo + hi) == value(lo + h) + d * pow10((lo.len() + h.len()) as nat));
        assert(p * (vh + d * q) == p * vh + d * (p * q)) by (nonlinear_arith);
    }
}

/// Splitting a buffer at `k` splits its value at `10^k`.
pub proof fn lemma_value_split(s: Seq<i8>, k: int)
    requires
        0 <= k <= s.len(),
    ensures
        value(s) == value(s.take(k)) + pow10(k as nat) * value(s.skip(k)),
{
    assert(s =~= s.take(k) + s.skip(k));
    lemma_value_concat(s.take(k), s.skip(k));
}

/// Peeling the least significant entry: the rest counts ten times.
pub proof fn lemma_value_first(s: Seq<i8>)
    requires
        s.len() > 0,
    ensures
        value(s) == s[0] + 10 * value(s.drop_first()),
{
    lemma_value_split(s, 1);
    let one = s.take(1);
    assert(value(one.drop_last()) == 0);
    assert(pow10(0) == 1);
    assert(pow10(1) == 10) by {
        reveal_with_fuel(pow10, 2);
    }
}

/// A buffer of one entry stands for that entry.
pub proof fn lemma_value_single(s: Seq<i8>)
    requires
        s.len() == 1,
    ensures
        value(s) == s[0],
{
    lemma_value_first(s);
}

/// A buffer of two entries stands for units plus ten times the tens.
pub proof fn lemma_value_pair(s: Seq<i8>)
    requires
        s.len() == 2,
    ensures
        value(s) == s[0] + 10 * s[1],
{
    lemma_value_first(s);
    lemma_value_single(s.drop_first());
}

/// Reading a sequence most significant first gives the value of the
/// reversed sequence.
pub proof fn lemma_msb_value_reverse(s: Seq<i8>)
    ensures
        msb_value(s) == value(s.reverse()),
    decreases s.len(),
{
    if s.len() > 0 {
        let r = s.reverse();
        lemma_value_first(r);
        assert(r.drop_first() =~= s.drop_last().reverse());
        lemma_msb_value_reverse(s.drop_last());
    }
}

/// A buffer of `n` zeros followed by `s` stands for `value(s) * 10^n`.
pub proof fn lemma_value_shift(s: Seq<i8>, n: nat)
    ensures
        value(zeros(n) + s) == value(s) * pow10(n),
{
    lemma_value_concat(zeros(n), s);
    lemma_value_zeros(n);
    assert(pow10(n) * value(s) == value(s) * pow10(n)) by (nonlinear_arith);
}

/// A valid buffer of length `n` stands for a number in `[0, 10^n)`.
pub proof fn lemma_value_bounds(s: Seq<i8>)
    requires
        digits_valid(s),
    ensures
        0 <= value(s) < pow10(s.len()),
    decreases s.len(),
{
    if s.len() > 0 {
        let t = s.drop_last();
        let d = s.last();
        let p = pow10(t.len()) as int;
        lemma_value_bounds(t);
        assert(0 <= d * p <= 9 * p) by (nonlinear_arith)
            requires
                0 <= d <= 9,
                p >= 0,
        ;
    }
}

/// A canonical buffer of length `n > 0` stands for a number of at least
/// `10^(n-1)`.
pub proof fn lemma_value_lower_bound(s: Seq<i8>)
    requires
        canonical(s),
        s.len() > 0,
    ensures
        value(s) >= pow10((s.len() - 1) as nat),
{
    let t = s.drop_last();
    let d = s.last();
    let p = pow10(t.len()) as int;
    lemma_value_bounds(t);
    assert(d * p >= p) by (nonlinear_arith)
        requires
            d >= 1,
            p >= 0,
    ;
}

/// Zero entries at the most significant end do not change the value.
pub proof fn lemma_value_take_zero_tail(s: Seq<i8>, k: int)
    requires
        0 <= k <= s.len(),
        forall|i: int| k <= i < s.len() ==> s[i] == 0,
    ensures
        value(s.take(k)) == value(s),
    decreases s.len() - k,
{
    if k < s.len() {
        let t = s.drop_last();
        assert(t.take(k) =~= s.take(k));
        lemma_value_take_zero_tail(t, k);
    } else {
        assert(s.take(k) =~= s);
    }
}

/// Two valid buffers of the same length that stand for the same number
/// are the same buffer.
pub proof fn lemma_value_injective(a: Seq<i8>, b: Seq<i8>)
    requires
        digits_valid(a),
        digits_valid(b),
        a.len() == b.len(),
        value(a) == value(b),
    ensures
        a == b,
    decreases a.len(),
{
    if a.len() > 0 {
        let p = pow10((a.len() - 1) as nat) as int;
        let (da, db) = (a.last() as int, b.last() as int);
        lemma_value_bounds(a.drop_last());
        lemma_value_bounds(b.drop_last());
        assert(da == db) by (nonlinear_arith)
            requires
                0 <= value(a.drop_last()) < p,
                0 <= value(b.drop_last()) < p,
                value(a.drop_last()) + da * p == value(b.drop_last()) + db * p,
        ;
        lemma_value_injective(a.drop_last(), b.drop_last());
        assert(b =~= b.drop_last().push(b.last()));
    }
}

/// A number has one canonical buffer.
pub proof fn lemma_canonical_unique(a: Seq<i8>, b: Seq<i8>)
    requires
        canonical(a),
        canonical(b),
        value(a) == value(b),
    ensures
        a == b,
{
    lemma_value_bounds(a);
    lemma_value_bounds(b);
    if a.len() < b.len() {
        lemma_value_lower_bound(b);
        lemma_pow10_monotonic(a.len(), (b.len() - 1) as nat);
    } else if b.len() < a.len() {
        lemma_value_lower_bound(a);
        lemma_pow10_monotonic(b.len(), (a.len() - 1) as nat);
    }
    lemma_value_injective(a, b);
}

/// Only the empty canonical buffer stands for zero.
pub proof fn lemma_canonical_zero(s: Seq<i8>)
    requires
        canonical(s),
    ensures
        value(s) == 0 <==> s.len() == 0,
{
    if s.len() > 0 {
        lemma_value_lower_bound(s);
        lemma_pow10_positive((s.len() - 1) as nat);
    }
}

/// Dropping the least significant digit of a valid buffer divides its
/// value by ten; the digit dropped is the remainder.
pub proof fn lemma_value_div10(s: Seq<i8>)
    requires
        digits_valid(s),
        s.len() > 0,
    ensures
        value(s) / 10 == value(s.drop_first()),
        value(s) % 10 == s[0],
        canonical(s) ==> canonical(s.drop_first()),
{
    lemma_value_first(s);
}

/// The length of a canonical buffer is the number of decimal digits of
/// its value.
pub proof fn lemma_canonical_len(s: Seq<i8>)
    requires
        canonical(s),
    ensures
        value(s) >= 0,
        s.len() == digit_count(value(s) as nat),
    decreases s.len(),
{
    lemma_value_bounds(s);
    lemma_canonical_zero(s);
    if s.len() > 0 {
        lemma_value_div10(s);
        lemma_canonical_len(s.drop_first());
    }
}

/// The top entry of a canonical buffer is the leading digit of its value.
pub proof fn lemma_canonical_leading(s: Seq<i8>)
    requires
        canonical(s),
        s.len() > 0,
    ensures
        value(s) >= 0,
        s.last() == leading_digit(value(s) as nat),
    decreases s.len(),
{
    lemma_value_bounds(s);
    lemma_value_div10(s);
    if s.len() == 1 {
        assert(value(s) == s[0]) by {
            lemma_value_first(s);
        }
    } else {
        let rest = s.drop_first();
        lemma_canonical_zero(rest);
        lemma_value_bounds(rest);
        lemma_canonical_leading(rest);
    }
}

} // verus!
