//! Wrapping arithmetic on `i64` as arithmetic modulo `2^64`.
//!
//! [`wrap`] takes an integer to the `i64` that is congruent to it. Sums
//! and products that wrap around are the wrapped exact sums and products,
//! so a computation may wrap at every step or once at the end.

use vstd::arithmetic::div_mod::{lemma_fundamental_div_mod, lemma_mod_multiples_vanish};
use vstd::prelude::*;
use vstd::wrapping::i64_specs::{signed_crop, wrapping_add, wrapping_mul, wrapping_sub};

verus! {

/// The `i64` congruent to `x` modulo `2^64`.
pub open spec fn wrap(x: int) -> i64 {
    signed_crop(x)
}

/// The multiple of `2^64` by which `wrap(x)` differs from `x`.
proof fn lemma_wrap_offset(x: int) -> (k: int)
    ensures
        wrap(x) == x + 0x1_0000_0000_0000_0000 * k,
{
    let m = 0x1_0000_0000_0000_0000int;
    lemma_fundamental_div_mod(x, m);
    if x % m > i64::MAX {
        -(x / m) - 1
    } else {
        -(x / m)
    }
}

/// Numbers that differ by a multiple of `2^64` wrap to the same `i64`.
pub proof fn lemma_wrap_congruent(x: int, k: int)
    ensures
        wrap(x + 0x1_0000_0000_0000_0000 * k) == wrap(x),
{
    lemma_mod_multiples_vanish(k, x, 0x1_0000_0000_0000_0000);
}

/// An `i64` wraps to itself.
pub proof fn lemma_wrap_small(v: i64)
    ensures
        wrap(v as int) == v,
{
}

/// Wrapping before adding changes nothing.
pub proof fn lemma_wrap_add(x: int, y: int)
    ensures
        wrap(wrap(x) + wrap(y)) == wrap(x + y),
        wrap(wrap(x) + y) == wrap(x + y),
        wrap(x + wrap(y)) == wrap(x + y),
        wrap(wrap(x) - wrap(y)) == wrap(x - y),
        wrap(-wrap(x)) == wrap(-x),
{
    let kx = lemma_wrap_offset(x);
    let ky = lemma_wrap_offset(y);
    lemma_wrap_congruent(x + y, kx + ky);
    lemma_wrap_congruent(x + y, kx);
    lemma_wrap_congruent(x + y, ky);
    lemma_wrap_congruent(x - y, kx - ky);
    lemma_wrap_congruent(-x, -kx);
}

/// Wrapping before multiplying changes nothing.
pub proof fn lemma_wrap_mul(x: int, y: int)
    ensures
        wrap(wrap(x) * wrap(y)) == wrap(x * y),
        wrap(wrap(x) * y) == wrap(x * y),
        wrap(x * wrap(y)) == wrap(x * y),
{
    let m = 0x1_0000_0000_0000_0000int;
    let kx = lemma_wrap_offset(x);
    let ky = lemma_wrap_offset(y);
    assert((x + m * kx) * (y + m * ky) == x * y + m * (kx * y + x * ky + m * kx * ky))
        by (nonlinear_arith);
    lemma_wrap_congruent(x * y, kx * y + x * ky + m * kx * ky);
    assert((x + m * kx) * y == x * y + m * (kx * y)) by (nonlinear_arith);
    lemma_wrap_congruent(x * y, kx * y);
    assert(x * (y + m * ky) == x * y + m * (x * ky)) by (nonlinear_arith);
    lemma_wrap_congruent(x * y, x * ky);
}

/// What the wrapping operations of `i64` compute.
pub proof fn lemma_wrapping_ops(a: i64, b: i64)
    ensures
        wrapping_add(a, b) == wrap(a + b),
        wrapping_sub(a, b) == wrap(a - b),
        wrapping_mul(a, b) == wrap(a * b),
{
}

} // verus!
