//! The signed arbitrary-precision integer.
//!
//! A [`BigInteger`] keeps its magnitude as decimal digits, least
//! significant first, next to a sign in `{-1, 0, 1}`. Every value is in
//! canonical form: no padding zeros, and zero is the empty buffer with
//! sign `0`. The form is a type invariant, so the functions of this crate
//! may rely on it and must establish it for whatever they hand out.

use crate::digits::{
    abs, canonical, digit_count, digits_valid, leading_digit, lemma_canonical_leading,
    lemma_canonical_len, lemma_canonical_unique, lemma_canonical_zero, lemma_value_bounds,
    lemma_value_lower_bound, lemma_value_split, pow10, sign_of, value,
};
use crate::ops::trunc;
use vstd::prelude::*;
use vstd::std_specs::cmp::PartialEqSpecImpl;

verus! {

/// A signed integer of any size.
#[derive(Debug)]
pub struct BigInteger {
    digits: Vec<i8>,
    signum: i8,
}

impl View for BigInteger {
    type V = int;

    /// The integer this value stands for.
    open spec fn view(&self) -> int {
        self.sign() * value(self.magnitude())
    }
}

impl BigInteger {
    /// The digits of the magnitude, least significant first.
    pub closed spec fn magnitude(&self) -> Seq<i8> {
        self.digits@
    }

    /// The stored sign.
    pub closed spec fn sign(&self) -> int {
        self.signum as int
    }

    /// Canonical form: valid digits without padding, a sign in `{-1, 0, 1}`
    /// that is `0` exactly for the empty magnitude.
    #[verifier::type_invariant]
    pub open spec fn wf(&self) -> bool {
        &&& canonical(self.magnitude())
        &&& -1 <= self.sign() <= 1
        &&& self.sign() == 0 <==> self.magnitude().len() == 0
    }

    /// What a well-formed value's parts say about the integer it stands
    /// for: the sign is the integer's sign, the magnitude its absolute
    /// value, and the number of digits places it between two powers of ten.
    pub proof fn lemma_wf_facts(&self)
        requires
            self.wf(),
        ensures
            self.sign() == sign_of(self@),
            value(self.magnitude()) == abs(self@),
            abs(self@) < pow10(self.magnitude().len()),
            self.magnitude().len() > 0 ==> abs(self@) >= pow10(
                (self.magnitude().len() - 1) as nat,
            ),
            self.magnitude().len() == digit_count(abs(self@)),
            self@ == 0 <==> self.magnitude().len() == 0,
    {
        let m = self.magnitude();
        lemma_value_bounds(m);
        lemma_canonical_zero(m);
        lemma_canonical_len(m);
        if m.len() > 0 {
            lemma_value_lower_bound(m);
        }
        if self.sign() == 1 {
            assert(1 * value(m) == value(m));
        } else if self.sign() == -1 {
            assert((-1) * value(m) == -value(m));
        }
    }

    /// Two well-formed values that stand for the same integer have the
    /// same digits and the same sign.
    pub proof fn lemma_view_injective(&self, other: &BigInteger)
        requires
            self.wf(),
            other.wf(),
            self@ == other@,
        ensures
            self.magnitude() == other.magnitude(),
            self.sign() == other.sign(),
    {
        self.lemma_wf_facts();
        other.lemma_wf_facts();
        lemma_canonical_unique(self.magnitude(), other.magnitude());
    }

    /// A well-formed value whose absolute value is below `10^k` has at most
    /// `k` digits.
    pub proof fn lemma_len_bound(&self, k: nat)
        requires
            self.wf(),
            abs(self@) < pow10(k),
        ensures
            self.magnitude().len() <= k,
    {
        self.lemma_wf_facts();
        if self.magnitude().len() > k {
            crate::digits::lemma_pow10_monotonic(k, (self.magnitude().len() - 1) as nat);
        }
    }

    /// The canonical zero.
    pub fn zero() -> (r: BigInteger)
        ensures
            r.wf(),
            r@ == 0,
            r.magnitude().len() == 0,
    {
        let r = BigInteger { digits: Vec::new(), signum: 0 };
        r
    }

    /// The normalizer: strips padding zeros from `digits` and attaches the
    /// sign `factor`, or `0` if nothing but zeros was there.
    pub fn from_parts(digits: Vec<i8>, factor: i8) -> (r: BigInteger)
        requires
            digits_valid(digits@),
            factor == 1 || factor == -1,
        ensures
            r.wf(),
            r@ == factor * value(digits@),
            r.magnitude() == digits@.take(r.magnitude().len() as int),
    {
        let digits = trunc(digits);
        let signum: i8 = if digits.len() == 0 {
            0
        } else {
            factor
        };
        proof {
            if digits.len() == 0 {
                assert(factor * value(digits@) == 0) by (nonlinear_arith)
                    requires
                        value(digits@) == 0,
                ;
            }
        }
        BigInteger { digits, signum }
    }

    /// Takes the value apart into its digits and its sign.
    pub fn into_parts(self) -> (r: (Vec<i8>, i8))
        ensures
            r.0@ == self.magnitude(),
            r.1 == self.sign(),
    {
        (self.digits, self.signum)
    }

    /// The digits of the magnitude, least significant first.
    pub fn digits(&self) -> (r: &Vec<i8>)
        ensures
            r@ == self.magnitude(),
    {
        &self.digits
    }

    /// The most significant digit, or zero for zero.
    pub fn last_digit(&self) -> (r: i8)
        ensures
            r == leading_digit(abs(self@)),
            self.magnitude().len() > 0 ==> r == self.magnitude().last(),
    {
        proof {
            use_type_invariant(self);
            self.lemma_wf_facts();
        }
        let n = self.digits.len();
        if n == 0 {
            0
        } else {
            proof {
                lemma_canonical_leading(self.digits@);
            }
            self.digits[n - 1]
        }
    }

    /// The sign of the value: -1, 0 or 1.
    pub fn signum(&self) -> (r: i8)
        ensures
            r == sign_of(self@),
            r == self.sign(),
    {
        proof {
            use_type_invariant(self);
            self.lemma_wf_facts();
        }
        if self.digits.len() == 0 {
            0
        } else {
            self.signum
        }
    }

    /// The absolute value.
    pub fn abs(self) -> (r: BigInteger)
        ensures
            r.wf(),
            r@ == abs(self@),
            r.magnitude() == self.magnitude(),
    {
        proof {
            use_type_invariant(&self);
            self.lemma_wf_facts();
        }
        if self.signum == -1 {
            let r = BigInteger { digits: self.digits, signum: 1 };
            r
        } else {
            self
        }
    }

    /// The number of decimal digits; zero has none.
    pub fn len(&self) -> (r: usize)
        ensures
            r == self.magnitude().len(),
            r == digit_count(abs(self@)),
    {
        proof {
            use_type_invariant(self);
            self.lemma_wf_facts();
        }
        self.digits.len()
    }

    /// Splits the value at the `n`-th decimal place into a low part, the `n`
    /// least significant digits, and a high part, the rest. Both carry the
    /// sign of the value.
    pub fn split_on(self, n: usize) -> (r: (BigInteger, BigInteger))
        ensures
            r.0.wf(),
            r.1.wf(),
            r.0@ + r.1@ * pow10(n as nat) == self@,
            abs(r.0@) < pow10(n as nat),
            self@ >= 0 ==> r.0@ >= 0 && r.1@ >= 0,
            self@ <= 0 ==> r.0@ <= 0 && r.1@ <= 0,
    {
        proof {
            use_type_invariant(&self);
            self.lemma_wf_facts();
        }
        let ghost whole = self.digits@;
        let signum = self.signum;
        let digits = self.digits;
        if digits.len() <= n {
            proof {
                crate::digits::lemma_pow10_monotonic(digits.len() as nat, n as nat);
            }
            let low = BigInteger { digits, signum };
            return (low, BigInteger::zero());
        }
        let mut low: Vec<i8> = Vec::new();
        let mut high: Vec<i8> = Vec::new();
        let mut i: usize = 0;
        while i < digits.len()
            invariant
                i <= digits.len(),
                n < digits.len(),
                i <= n ==> low@ == digits@.take(i as int) && high@.len() == 0,
                i > n ==> low@ == digits@.take(n as int) && high@ == digits@.subrange(
                    n as int,
                    i as int,
                ),
            decreases digits.len() - i,
        {
            if i < n {
                low.push(digits[i]);
            } else {
                high.push(digits[i]);
            }
            i += 1;
        }
        proof {
            lemma_value_split(whole, n as int);
            lemma_value_bounds(low@);
            lemma_value_bounds(high@);
        }
        let lo = BigInteger::from_parts(low, signum);
        let hi = BigInteger { digits: high, signum };
        proof {
            let (p, a, b) = (pow10(n as nat) as int, value(low@), value(high@));
            let s = signum as int;
            assert(s * a + (s * b) * p == s * (a + p * b)) by (nonlinear_arith);
        }
        (lo, hi)
    }
}

impl Clone for BigInteger {
    /// A copy: the same digits and the same sign.
    fn clone(&self) -> (r: BigInteger)
        ensures
            r.wf(),
            r@ == self@,
            r.magnitude() == self.magnitude(),
            r.sign() == self.sign(),
    {
        proof {
            use_type_invariant(self);
        }
        let mut digits: Vec<i8> = Vec::new();
        let mut i: usize = 0;
        while i < self.digits.len()
            invariant
                i <= self.digits.len(),
                digits@ == self.digits@.take(i as int),
            decreases self.digits.len() - i,
        {
            digits.push(self.digits[i]);
            i += 1;
        }
        assert(digits@ =~= self.digits@);
        BigInteger { digits, signum: self.signum }
    }
}

impl Default for BigInteger {
    /// Zero.
    fn default() -> (r: BigInteger)
        ensures
            r.wf(),
            r@ == 0,
    {
        BigInteger::zero()
    }
}

/// Two values are equal if they have the same digits and the same sign.
/// For values in canonical form that is to stand for the same integer.
impl PartialEqSpecImpl for BigInteger {
    open spec fn obeys_eq_spec() -> bool {
        true
    }

    /// Same digits and same sign.
    open spec fn eq_spec(&self, other: &BigInteger) -> bool {
        self.magnitude() == other.magnitude() && self.sign() == other.sign()
    }
}

impl PartialEq for BigInteger {
    fn eq(&self, other: &BigInteger) -> (r: bool) {
        if self.signum != other.signum || self.digits.len() != other.digits.len() {
            return false;
        }
        let mut i: usize = 0;
        while i < self.digits.len()
            invariant
                i <= self.digits.len(),
                self.digits.len() == other.digits.len(),
                forall|j: int| 0 <= j < i ==> self.digits@[j] == other.digits@[j],
            decreases self.digits.len() - i,
        {
            if self.digits[i] != other.digits[i] {
                return false;
            }
            i += 1;
        }
        assert(self.digits@ =~= other.digits@);
        true
    }
}

impl Eq for BigInteger {

}

} // verus!
