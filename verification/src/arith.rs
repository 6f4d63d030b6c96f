//! Signed arithmetic on [`BigInteger`]: negation, addition, subtraction,
//! shifting by decimal places and multiplication.
//!
//! The operators are specified by the integer their result stands for.
//! Since every result is in canonical form, that integer determines the
//! result digit for digit.

use crate::big_integer::BigInteger;
use crate::digits::{
    abs, lemma_pow10_add, lemma_pow10_monotonic, lemma_pow10_positive, lemma_value_pair,
    lemma_value_single, pow10, value,
};
use crate::ops::{addition, lsh, substraction};
use vstd::prelude::*;
use vstd::std_specs::ops::{AddSpecImpl, MulSpecImpl, NegSpecImpl, ShlSpecImpl, SubSpecImpl};

verus! {

/// The operand is short enough for multiplication: every buffer built on
/// the way, the product included, has a length that fits `usize`.
pub open spec fn fits_mul(a: BigInteger) -> bool {
    a.magnitude().len() < usize::MAX / 4
}

/// `-` can be applied to every value. Its result is specified by `neg`
/// itself, through the integer that the result stands for.
impl NegSpecImpl for BigInteger {
    open spec fn obeys_neg_spec() -> bool {
        false
    }

    open spec fn neg_req(self) -> bool {
        true
    }

    open spec fn neg_spec(self) -> BigInteger {
        arbitrary()
    }
}

impl core::ops::Neg for BigInteger {
    type Output = BigInteger;

    /// The value with its sign flipped; zero stays zero. The digits are
    /// untouched.
    fn neg(self) -> (r: BigInteger)
        ensures
            r.wf(),
            r@ == -self@,
            r.magnitude() == self.magnitude(),
    {
        proof {
            use_type_invariant(&self);
            self.lemma_wf_facts();
        }
        let ghost m = self.magnitude();
        let (digits, signum) = self.into_parts();
        if signum == 0 {
            BigInteger::zero()
        } else {
            let r = BigInteger::from_parts(digits, -signum);
            proof {
                assert((-signum) * value(m) == -(signum * value(m))) by (nonlinear_arith);
                r.lemma_wf_facts();
                crate::digits::lemma_canonical_unique(r.magnitude(), m);
            }
            r
        }
    }
}

/// `+` can be applied to every pair of values. Its result is specified by
/// `add` itself, through the integer that the result stands for.
impl AddSpecImpl for BigInteger {
    open spec fn obeys_add_spec() -> bool {
        false
    }

    open spec fn add_req(self, rhs: BigInteger) -> bool {
        true
    }

    open spec fn add_spec(self, rhs: BigInteger) -> BigInteger {
        arbitrary()
    }
}

impl core::ops::Add for BigInteger {
    type Output = BigInteger;

    /// The sum. Operands of the same sign have their magnitudes added and
    /// keep the sign; operands of opposite signs have the magnitude of the
    /// negative one subtracted from that of the positive one, and the
    /// borrow decides the sign.
    fn add(self, rhs: BigInteger) -> (r: BigInteger)
        ensures
            r.wf(),
            r@ == self@ + rhs@,
    {
        proof {
            use_type_invariant(&self);
            use_type_invariant(&rhs);
            self.lemma_wf_facts();
            rhs.lemma_wf_facts();
        }
        let ls = self.signum();
        let rs = rhs.signum();
        if rs == 0 {
            return self;
        }
        if ls == 0 {
            return rhs;
        }
        let (x, _) = self.into_parts();
        let (y, _) = rhs.into_parts();
        if ls == rs {
            proof {
                assert(ls * (value(x@) + value(y@)) == ls * value(x@) + ls * value(y@))
                    by (nonlinear_arith);
            }
            BigInteger::from_parts(addition(x, y), ls)
        } else if ls == 1 {
            let (digits, factor) = substraction(x, y);
            proof {
                let d = value(x@) - value(y@);
                assert(factor * value(digits@) == d) by (nonlinear_arith)
                    requires
                        (factor == 1 && value(digits@) == d) || (factor == -1 && value(digits@)
                            == -d),
                ;
            }
            BigInteger::from_parts(digits, factor)
        } else {
            let (digits, factor) = substraction(y, x);
            proof {
                let d = value(y@) - value(x@);
                assert(factor * value(digits@) == d) by (nonlinear_arith)
                    requires
                        (factor == 1 && value(digits@) == d) || (factor == -1 && value(digits@)
                            == -d),
                ;
            }
            BigInteger::from_parts(digits, factor)
        }
    }
}

/// `-` can be applied to every pair of values. Its result is specified by
/// `sub` itself, through the integer that the result stands for.
impl SubSpecImpl for BigInteger {
    open spec fn obeys_sub_spec() -> bool {
        false
    }

    open spec fn sub_req(self, rhs: BigInteger) -> bool {
        true
    }

    open spec fn sub_spec(self, rhs: BigInteger) -> BigInteger {
        arbitrary()
    }
}

impl core::ops::Sub for BigInteger {
    type Output = BigInteger;

    /// The difference: the sum of `self` and the negated `rhs`.
    fn sub(self, rhs: BigInteger) -> (r: BigInteger)
        ensures
            r.wf(),
            r@ == self@ - rhs@,
    {
        self + core::ops::Neg::neg(rhs)
    }
}

/// `<<` asks that the shifted digits can still be counted. Its result is
/// specified by `shl` itself, through the integer that the result stands
/// for.
impl ShlSpecImpl<usize> for BigInteger {
    open spec fn obeys_shl_spec() -> bool {
        false
    }

    /// The shifted buffer's length fits `usize`.
    open spec fn shl_req(self, n: usize) -> bool {
        self.magnitude().len() + n <= usize::MAX
    }

    open spec fn shl_spec(self, n: usize) -> BigInteger {
        arbitrary()
    }
}

impl core::ops::Shl<usize> for BigInteger {
    type Output = BigInteger;

    /// Multiplies by `10^n`: the digits move up by `n` places.
    fn shl(self, n: usize) -> (r: BigInteger)
        ensures
            r.wf(),
            r@ == self@ * pow10(n as nat),
    {
        proof {
            use_type_invariant(&self);
            self.lemma_wf_facts();
        }
        let s = self.signum();
        if s == 0 {
            proof {
                assert(0 * pow10(n as nat) == 0);
            }
            return self;
        }
        let (digits, _) = self.into_parts();
        proof {
            assert(s * (value(digits@) * pow10(n as nat)) == (s * value(digits@)) * pow10(
                n as nat,
            )) by (nonlinear_arith);
            lemma_pow10_positive(n as nat);
        }
        let shifted = lsh(digits, n);
        BigInteger::from_parts(shifted, s)
    }
}

/// How the parts of a number split at `p` compare with the number.
proof fn lemma_split_smaller(a: int, lo: int, hi: int, p: int)
    by (nonlinear_arith)
    requires
        a == lo + hi * p,
        0 <= lo < p,
        0 <= hi,
        p >= 10,
    ensures
        hi <= a,
        lo <= a,
        hi + lo <= a,
        a >= p ==> hi < a && lo < a && hi + lo < a,
{
}

proof fn lemma_expand(x: int, y: int, u: int, v: int)
    by (nonlinear_arith)
    ensures
        (x + y) * (u + v) == x * u + x * v + y * u + y * v,
{
}

proof fn lemma_scale(x: int, y: int, p: int)
    by (nonlinear_arith)
    ensures
        x * (y * p) == (x * y) * p,
        (x * p) * y == (x * y) * p,
        (x * p) * (y * p) == (x * y) * (p * p),
        (x + y) * p == x * p + y * p,
{
}

/// The three-product recombination: with the middle term computed from
/// the product of the sums, the parts put together give the product.
proof fn lemma_recombine(
    a: int,
    b: int,
    al: int,
    ah: int,
    bl: int,
    bh: int,
    p: int,
    hi: int,
    lo: int,
    mid: int,
)
    requires
        a == al + ah * p,
        b == bl + bh * p,
        hi == ah * bh,
        lo == al * bl,
        mid == (ah + al) * (bh + bl),
    ensures
        hi * (p * p) + (mid - hi - lo) * p + lo == a * b,
        mid - hi - lo == ah * bl + al * bh,
{
    lemma_expand(ah, al, bh, bl);
    lemma_expand(al, ah * p, bl, bh * p);
    lemma_scale(al, bh, p);
    lemma_scale(ah, bl, p);
    lemma_scale(ah, bh, p);
    lemma_scale(ah * bl, al * bh, p);
}

proof fn lemma_product_bound(a: int, b: int, x: int, y: int, p: int, q: int)
    by (nonlinear_arith)
    requires
        0 <= x <= a < p,
        0 <= y <= b < q,
    ensures
        0 <= x * y <= a * b,
        a * b < p * q,
{
}

/// The product of two non-negative values by divide and conquer.
///
/// Operands of one digit each are multiplied directly. Otherwise both are
/// split at half the length of the longer one, and the product is put
/// together from three products of the halves: high by high, low by low,
/// and the sum of the halves of one by the sum of the halves of the other.
pub fn multiply(a: &BigInteger, b: &BigInteger) -> (r: BigInteger)
    requires
        a@ >= 0,
        b@ >= 0,
        fits_mul(*a),
        fits_mul(*b),
    ensures
        r.wf(),
        r@ == a@ * b@,
    decreases a@ + b@,
{
    proof {
        use_type_invariant(a);
        use_type_invariant(b);
        a.lemma_wf_facts();
        b.lemma_wf_facts();
    }
    let l = a.len();
    let r = b.len();
    if l == 0 || r == 0 {
        proof {
            assert(a@ * b@ == 0) by (nonlinear_arith)
                requires
                    a@ == 0 || b@ == 0,
            ;
        }
        return BigInteger::zero();
    }
    if l == 1 && r == 1 {
        let x: i8 = a.digits()[0];
        let y: i8 = b.digits()[0];
        proof {
            lemma_value_single(a.magnitude());
            lemma_value_single(b.magnitude());
            assert(0 <= x * y <= 81) by (nonlinear_arith)
                requires
                    0 <= x <= 9,
                    0 <= y <= 9,
            ;
        }
        let prod: i8 = x * y;
        let mut digits: Vec<i8> = Vec::new();
        digits.push(prod % 10);
        digits.push(prod / 10);
        proof {
            lemma_value_pair(digits@);
        }
        return BigInteger::from_parts(digits, 1);
    }
    let m = if l < r {
        r
    } else {
        l
    };
    let h = m / 2 + m % 2;
    let (a_lo, a_hi) = a.clone().split_on(h);
    let (b_lo, b_hi) = b.clone().split_on(h);
    let ghost p = pow10(h as nat) as int;
    proof {
        lemma_pow10_monotonic(1, h as nat);
        assert(pow10(1) == 10) by {
            reveal_with_fuel(pow10, 2);
        }
        lemma_split_smaller(a@, a_lo@, a_hi@, p);
        lemma_split_smaller(b@, b_lo@, b_hi@, p);
        if l == m {
            lemma_pow10_monotonic(h as nat, (l - 1) as nat);
        } else {
            lemma_pow10_monotonic(h as nat, (r - 1) as nat);
        }
        a_lo.lemma_wf_facts();
        a_hi.lemma_wf_facts();
        b_lo.lemma_wf_facts();
        b_hi.lemma_wf_facts();
        a_lo.lemma_len_bound(l as nat);
        a_hi.lemma_len_bound(l as nat);
        b_lo.lemma_len_bound(r as nat);
        b_hi.lemma_len_bound(r as nat);
    }
    let hi = multiply(&a_hi, &b_hi);
    let lo = multiply(&a_lo, &b_lo);
    let a_sum = a_hi + a_lo;
    let b_sum = b_hi + b_lo;
    proof {
        a_sum.lemma_len_bound(l as nat);
        b_sum.lemma_len_bound(r as nat);
    }
    let mid = multiply(&a_sum, &b_sum);
    proof {
        lemma_recombine(a@, b@, a_lo@, a_hi@, b_lo@, b_hi@, p, hi@, lo@, mid@);
        lemma_pow10_add(h as nat, h as nat);
        lemma_pow10_add(l as nat, r as nat);
        let (pa, pb) = (pow10(l as nat) as int, pow10(r as nat) as int);
        lemma_product_bound(a@, b@, a_hi@, b_hi@, pa, pb);
        lemma_product_bound(a@, b@, a_lo@, b_lo@, pa, pb);
        lemma_product_bound(a@, b@, a_sum@, b_sum@, pa, pb);
        hi.lemma_len_bound((l + r) as nat);
    }
    let cross = mid - hi.clone() - lo.clone();
    proof {
        lemma_product_bound(a@, b@, a_hi@, b_lo@, pow10(l as nat) as int, pow10(r as nat) as int);
        lemma_product_bound(a@, b@, a_lo@, b_hi@, pow10(l as nat) as int, pow10(r as nat) as int);
        cross.lemma_len_bound((l + r) as nat);
    }
    (hi << (2 * h)) + (cross << h) + lo
}

proof fn lemma_sign_of_product(x: int, y: int, a: int, b: int)
    by (nonlinear_arith)
    requires
        a == abs(x),
        b == abs(y),
    ensures
        (x < 0) != (y < 0) ==> x * y == -(a * b),
        (x < 0) == (y < 0) ==> x * y == a * b,
{
}

/// `*` asks that both operands are short enough, see [`fits_mul`]. Its
/// result is specified by `mul` itself, through the integer that the
/// result stands for.
impl MulSpecImpl for BigInteger {
    open spec fn obeys_mul_spec() -> bool {
        false
    }

    open spec fn mul_req(self, rhs: BigInteger) -> bool {
        fits_mul(self) && fits_mul(rhs)
    }

    open spec fn mul_spec(self, rhs: BigInteger) -> BigInteger {
        arbitrary()
    }
}

impl core::ops::Mul for BigInteger {
    type Output = BigInteger;

    /// The product: the product of the magnitudes with the product of the
    /// signs.
    fn mul(self, rhs: BigInteger) -> (r: BigInteger)
        ensures
            r.wf(),
            r@ == self@ * rhs@,
    {
        proof {
            use_type_invariant(&self);
            use_type_invariant(&rhs);
        }
        let negative = (self.signum() < 0) != (rhs.signum() < 0);
        let ghost (x, y) = (self@, rhs@);
        let a = self.abs();
        let b = rhs.abs();
        let product = multiply(&a, &b);
        proof {
            lemma_sign_of_product(x, y, a@, b@);
        }
        if negative {
            core::ops::Neg::neg(product)
        } else {
            product
        }
    }
}

} // verus!
