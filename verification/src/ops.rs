//! Arithmetic on magnitudes: digit buffers without a sign.
//!
//! Every function here takes and returns plain `Vec<i8>` buffers, least
//! significant digit first, and states what it does in terms of
//! [`value`](crate::digits::value).

use crate::digits::{
    abs, digits_valid, lemma_value_bounds, lemma_value_push, lemma_value_shift,
    lemma_value_take_zero_tail, max_len, pow10, value, zeros,
};
use vstd::prelude::*;

verus! {

/// Every entry may be carried out of: it is non-negative and small enough
/// that the carry into the next position stays a single digit.
pub open spec fn carry_ready(s: Seq<i8>) -> bool {
    forall|i: int| 0 <= i < s.len() ==> 0 <= #[trigger] s[i] <= 89
}

/// Entry `i` of `s`, or zero past its end.
pub open spec fn digit_or_zero(s: Seq<i8>, i: int) -> int {
    if 0 <= i < s.len() {
        s[i] as int
    } else {
        0
    }
}

proof fn lemma_value_take_step(s: Seq<i8>, i: int)
    requires
        0 <= i,
    ensures
        value(s.take(min(i + 1, s.len() as int))) == value(s.take(min(i, s.len() as int)))
            + digit_or_zero(s, i) * pow10(i as nat),
{
    if i < s.len() {
        assert(s.take(i + 1) =~= s.take(i).push(s[i]));
        lemma_value_push(s.take(i), s[i]);
    }
}

spec fn min(a: int, b: int) -> int {
    if a <= b {
        a
    } else {
        b
    }
}

/// Multiplies by `10^n`: puts `n` zero digits below the digits of `x`.
pub fn lsh(x: Vec<i8>, n: usize) -> (r: Vec<i8>)
    requires
        x.len() + n <= usize::MAX,
    ensures
        r@ == zeros(n as nat) + x@,
        value(r@) == value(x@) * pow10(n as nat),
{
    let mut r: Vec<i8> = Vec::new();
    let mut i: usize = 0;
    while i < n
        invariant
            i <= n,
            r@ == zeros(i as nat),
        decreases n - i,
    {
        r.push(0);
        i += 1;
    }
    let mut j: usize = 0;
    while j < x.len()
        invariant
            j <= x.len(),
            r@ == zeros(n as nat) + x@.take(j as int),
        decreases x.len() - j,
    {
        r.push(x[j]);
        j += 1;
    }
    proof {
        lemma_value_shift(x@, n as nat);
    }
    r
}

/// Strips zero entries from the most significant end until the top entry
/// is non-zero or nothing is left.
pub fn trunc(x: Vec<i8>) -> (r: Vec<i8>)
    ensures
        r.len() <= x.len(),
        r@ == x@.take(r.len() as int),
        r.len() > 0 ==> r@.last() != 0,
        forall|i: int| r.len() <= i < x.len() ==> x[i] == 0,
        value(r@) == value(x@),
{
    let ghost orig = x@;
    let mut x = x;
    while x.len() > 0 && x[x.len() - 1] == 0
        invariant
            x.len() <= orig.len(),
            x@ == orig.take(x.len() as int),
            forall|i: int| x.len() <= i < orig.len() ==> orig[i] == 0,
        decreases x.len(),
    {
        x.pop();
        assert(x@ =~= orig.take(x.len() as int));
    }
    proof {
        lemma_value_take_zero_tail(orig, x.len() as int);
    }
    x
}

/// Carry propagation: brings every entry back into `0..=9`, moving the
/// excess into the next position, and appends a final carry as a new most
/// significant digit.
pub fn carry(x: Vec<i8>) -> (r: Vec<i8>)
    requires
        carry_ready(x@),
    ensures
        digits_valid(r@),
        value(r@) == value(x@),
        value(x@) < pow10(x.len() as nat) ==> r.len() == x.len(),
        value(x@) >= pow10(x.len() as nat) ==> r.len() == x.len() + 1,
        r.len() > x.len() ==> r@.last() != 0,
{
    let mut r: Vec<i8> = Vec::new();
    let mut c: i8 = 0;
    let mut i: usize = 0;
    while i < x.len()
        invariant
            i <= x.len(),
            carry_ready(x@),
            r.len() == i,
            digits_valid(r@),
            0 <= c <= 9,
            value(r@) + c * pow10(i as nat) == value(x@.take(i as int)),
        decreases x.len() - i,
    {
        let d: i8 = x[i] + c;
        let ghost before = r@;
        r.push(d % 10);
        proof {
            let p = pow10(i as nat) as int;
            lemma_value_push(before, d % 10);
            assert(x@.take(i + 1) =~= x@.take(i as int).push(x[i as int]));
            lemma_value_push(x@.take(i as int), x[i as int]);
            assert((d % 10) * p + (d / 10) * (10 * p) == x[i as int] * p + c * p)
                by (nonlinear_arith)
                requires
                    x[i as int] + c == 10 * (d / 10) + d % 10,
            ;
        }
        c = d / 10;
        i += 1;
    }
    proof {
        assert(x@.take(x.len() as int) =~= x@);
        lemma_value_bounds(r@);
        let p = pow10(x.len() as nat) as int;
        assert(c >= 1 ==> c * p >= p) by (nonlinear_arith)
            requires
                p >= 0,
        ;
        assert(c == 0 ==> c * p == 0);
    }
    if c != 0 {
        let ghost before = r@;
        r.push(c);
        proof {
            lemma_value_push(before, c);
        }
    }
    r
}

/// Magnitude addition: adds the two buffers position by position, the
/// shorter one padded with zeros, and carries.
pub fn addition(x: Vec<i8>, y: Vec<i8>) -> (r: Vec<i8>)
    requires
        digits_valid(x@),
        digits_valid(y@),
    ensures
        digits_valid(r@),
        value(r@) == value(x@) + value(y@),
        value(r@) < pow10(max_len(x.len() as nat, y.len() as nat)) ==> r.len() == max_len(
            x.len() as nat,
            y.len() as nat,
        ),
        value(r@) >= pow10(max_len(x.len() as nat, y.len() as nat)) ==> r.len() == max_len(
            x.len() as nat,
            y.len() as nat,
        ) + 1,
        r.len() > max_len(x.len() as nat, y.len() as nat) ==> r@.last() != 0,
{
    let (long, short) = if x.len() < y.len() {
        (y, x)
    } else {
        (x, y)
    };
    let mut sums: Vec<i8> = Vec::new();
    let mut i: usize = 0;
    while i < long.len()
        invariant
            i <= long.len(),
            short.len() <= long.len(),
            digits_valid(long@),
            digits_valid(short@),
            sums.len() == i,
            forall|j: int| 0 <= j < i ==> 0 <= #[trigger] sums@[j] <= 18,
            value(sums@) == value(long@.take(i as int)) + value(
                short@.take(min(i as int, short.len() as int)),
            ),
        decreases long.len() - i,
    {
        let d: i8 = if i < short.len() {
            long[i] + short[i]
        } else {
            long[i]
        };
        let ghost before = sums@;
        sums.push(d);
        proof {
            let p = pow10(i as nat) as int;
            lemma_value_push(before, d);
            lemma_value_take_step(long@, i as int);
            lemma_value_take_step(short@, i as int);
            assert(d * p == long[i as int] * p + digit_or_zero(short@, i as int) * p)
                by (nonlinear_arith)
                requires
                    d == long[i as int] + digit_or_zero(short@, i as int),
            ;
        }
        i += 1;
    }
    proof {
        assert(long@.take(long.len() as int) =~= long@);
        assert(short@.take(short.len() as int) =~= short@);
    }
    carry(sums)
}

/// Position-wise subtraction with borrow over `max(len x, len y)` places.
///
/// Returns the digits of `x - y` modulo `10^n` and whether a borrow is
/// left over at the end, which is the case exactly when `y` is larger.
fn borrow_sub(x: &Vec<i8>, y: &Vec<i8>) -> (r: (Vec<i8>, bool))
    requires
        digits_valid(x@),
        digits_valid(y@),
    ensures
        digits_valid(r.0@),
        r.0.len() == max_len(x.len() as nat, y.len() as nat),
        r.1 <==> value(x@) < value(y@),
        !r.1 ==> value(r.0@) == value(x@) - value(y@),
        r.1 ==> value(r.0@) == value(x@) - value(y@) + pow10(r.0.len() as nat),
{
    let n = if x.len() < y.len() {
        y.len()
    } else {
        x.len()
    };
    let mut r: Vec<i8> = Vec::new();
    let mut b: i8 = 0;
    let mut i: usize = 0;
    while i < n
        invariant
            i <= n,
            n == max_len(x.len() as nat, y.len() as nat),
            digits_valid(x@),
            digits_valid(y@),
            r.len() == i,
            digits_valid(r@),
            0 <= b <= 1,
            value(r@) - b * pow10(i as nat) == value(x@.take(min(i as int, x.len() as int)))
                - value(y@.take(min(i as int, y.len() as int))),
        decreases n - i,
    {
        let dx: i8 = if i < x.len() {
            x[i]
        } else {
            0
        };
        let dy: i8 = if i < y.len() {
            y[i]
        } else {
            0
        };
        let mut d: i8 = dx - dy - b;
        let ghost b_in = b;
        if d < 0 {
            d = d + 10;
            b = 1;
        } else {
            b = 0;
        }
        let ghost before = r@;
        r.push(d);
        proof {
            let p = pow10(i as nat) as int;
            lemma_value_push(before, d);
            lemma_value_take_step(x@, i as int);
            lemma_value_take_step(y@, i as int);
            assert(d * p - b * (10 * p) == dx * p - dy * p - b_in * p) by (nonlinear_arith)
                requires
                    d - 10 * b == dx - dy - b_in,
            ;
        }
        i += 1;
    }
    proof {
        assert(x@.take(x.len() as int) =~= x@);
        assert(y@.take(y.len() as int) =~= y@);
        lemma_value_bounds(r@);
        assert(0 * pow10(n as nat) == 0);
    }
    (r, b == 1)
}

/// Magnitude subtraction: the digits of `|x - y|` over `max(len x, len y)`
/// places, and a sign factor that is `1` when `x >= y` and `-1` when `y` is
/// the larger.
///
/// When the borrow runs off the top, `y` is the larger operand; the
/// operands are then swapped and subtracted once more, which cannot
/// borrow again.
pub fn substraction(x: Vec<i8>, y: Vec<i8>) -> (r: (Vec<i8>, i8))
    requires
        digits_valid(x@),
        digits_valid(y@),
    ensures
        digits_valid(r.0@),
        r.0.len() == max_len(x.len() as nat, y.len() as nat),
        value(r.0@) == abs(value(x@) - value(y@)),
        r.1 == if value(x@) >= value(y@) {
            1i8
        } else {
            -1i8
        },
{
    let (digits, borrowed) = borrow_sub(&x, &y);
    if borrowed {
        let (swapped, _) = borrow_sub(&y, &x);
        (swapped, -1)
    } else {
        (digits, 1)
    }
}

} // verus!
