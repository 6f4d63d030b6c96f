//! Long division of non-negative values.

use crate::big_integer::BigInteger;
use crate::digits::{
    digits_valid, lemma_msb_value_reverse, lemma_pow10_add, lemma_pow10_monotonic,
    lemma_pow10_positive, msb_value, pow10,
};
use vstd::arithmetic::div_mod::lemma_fundamental_div_mod_converse;
use vstd::prelude::*;

verus! {

/// The reason [`checked_division`] refuses its operands: the dividend is
/// negative or the divisor is not positive.
#[derive(Debug, Clone, Copy, PartialEq, Eq)]
pub struct DivisionPrecondition;

proof fn lemma_count_bound(c: int, z: int, x: int, start: int)
    by (nonlinear_arith)
    requires
        start == c * z + x,
        x >= z,
        z > 0,
        c >= 0,
        start < 10 * z,
    ensures
        c + 1 <= 9,
        start == (c + 1) * z + (x - z),
{
}

proof fn lemma_next_place(acc: int, c: int, y: int, p: int, x: int, start: int, whole: int)
    by (nonlinear_arith)
    requires
        whole == acc * (y * (10 * p)) + start,
        start == c * (y * p) + x,
    ensures
        whole == (10 * acc + c) * (y * p) + x,
{
}

proof fn lemma_first_place(x: int, y: int, p: int, q: int, r: int)
    by (nonlinear_arith)
    requires
        0 <= x < r,
        y >= p,
        p * q == r,
        q > 0,
    ensures
        x < y * q,
        x == 0 * (y * q) + x,
{
}

/// The quotient of `x` by `y`, rounded down.
///
/// Schoolbook long division: for each decimal place from the top down the
/// divisor, shifted to that place, is subtracted from the remainder as
/// often as it fits, which is at most nine times, and the count is the
/// quotient's digit at that place. Once the remainder is zero the digits
/// still to come are zero.
///
/// The operands must be a non-negative dividend and a positive divisor;
/// [`checked_division`] tests that at run time.
pub fn division(x: BigInteger, y: BigInteger) -> (q: BigInteger)
    requires
        x@ >= 0,
        y@ > 0,
    ensures
        q.wf(),
        q@ == x@ / y@,
        q@ * y@ <= x@ < (q@ + 1) * y@,
{
    proof {
        use_type_invariant(&x);
        use_type_invariant(&y);
        x.lemma_wf_facts();
        y.lemma_wf_facts();
    }
    let ghost whole = x@;
    let n = y.len();
    let m = x.len();
    if n > m {
        proof {
            lemma_pow10_monotonic(m as nat, (n - 1) as nat);
            lemma_fundamental_div_mod_converse(whole, y@, 0, whole);
        }
        return BigInteger::zero();
    }
    let mut x = x;
    let mut places: Vec<i8> = Vec::new();
    let mut i: usize = m - n + 1;
    proof {
        lemma_pow10_add((n - 1) as nat, i as nat);
        lemma_pow10_positive(i as nat);
        lemma_first_place(
            whole,
            y@,
            pow10((n - 1) as nat) as int,
            pow10(i as nat) as int,
            pow10(m as nat) as int,
        );
    }
    while i > 0 && x.len() != 0
        invariant
            x.wf(),
            y.wf(),
            y@ > 0,
            x@ >= 0,
            n == y.magnitude().len(),
            n + i <= m + 1,
            places.len() + i == m - n + 1,
            digits_valid(places@),
            whole == msb_value(places@) * (y@ * pow10(i as nat)) + x@,
            x@ < y@ * pow10(i as nat),
        decreases i,
    {
        i -= 1;
        let z = y.clone() << i;
        let ghost start = x@;
        let ghost acc = msb_value(places@);
        let mut c: i8 = 0;
        proof {
            lemma_pow10_positive(i as nat);
            assert(z@ > 0) by (nonlinear_arith)
                requires
                    z@ == y@ * pow10(i as nat),
                    y@ > 0,
                    pow10(i as nat) > 0,
            ;
            assert(y@ * (10 * pow10(i as nat)) == 10 * (y@ * pow10(i as nat)))
                by (nonlinear_arith);
        }
        while x >= z
            invariant
                x.wf(),
                z.wf(),
                z@ > 0,
                x@ >= 0,
                0 <= c <= 9,
                start == c * z@ + x@,
                start < 10 * z@,
            decreases x@,
        {
            proof {
                lemma_count_bound(c as int, z@, x@, start);
            }
            x = x - z.clone();
            c += 1;
        }
        let ghost before = places@;
        places.push(c);
        proof {
            assert(places@.drop_last() =~= before);
            lemma_next_place(acc, c as int, y@, pow10(i as nat) as int, x@, start, whole);
        }
    }
    while i > 0
        invariant
            x@ == 0 || i == 0,
            y@ > 0,
            x@ >= 0,
            places.len() + i == m - n + 1,
            digits_valid(places@),
            whole == msb_value(places@) * (y@ * pow10(i as nat)) + x@,
            x@ < y@ * pow10(i as nat),
        decreases i,
    {
        i -= 1;
        let ghost before = places@;
        let ghost acc = msb_value(before);
        places.push(0);
        proof {
            assert(places@.drop_last() =~= before);
            lemma_pow10_positive(i as nat);
            lemma_next_place(acc, 0, y@, pow10(i as nat) as int, 0, 0, whole);
            assert(0 < y@ * pow10(i as nat)) by (nonlinear_arith)
                requires
                    y@ > 0,
                    pow10(i as nat) > 0,
            ;
        }
    }
    let mut digits: Vec<i8> = Vec::new();
    let mut k: usize = places.len();
    while k > 0
        invariant
            k <= places.len(),
            digits.len() == places.len() - k,
            forall|j: int| 0 <= j < digits.len() ==> digits@[j] == places@[places.len() - 1 - j],
        decreases k,
    {
        k -= 1;
        digits.push(places[k]);
    }
    proof {
        assert(digits@ =~= places@.reverse());
        lemma_msb_value_reverse(places@);
        let q = msb_value(places@);
        assert(y@ * pow10(i as nat) == y@) by (nonlinear_arith)
            requires
                pow10(i as nat) == 1,
        ;
        lemma_fundamental_div_mod_converse(whole, y@, q, x@);
        assert((q + 1) * y@ == q * y@ + y@) by (nonlinear_arith);
    }
    BigInteger::from_parts(digits, 1)
}

/// [`division`] for callers that cannot promise its precondition: the
/// quotient if the dividend is non-negative and the divisor positive, and
/// the error otherwise.
pub fn checked_division(x: BigInteger, y: BigInteger) -> (r: Result<
    BigInteger,
    DivisionPrecondition,
>)
    ensures
        x@ >= 0 && y@ > 0 <==> r is Ok,
        r matches Ok(q) ==> q.wf() && q@ == x@ / y@,
{
    if x.signum() >= 0 && y.signum() > 0 {
        Ok(division(x, y))
    } else {
        Err(DivisionPrecondition)
    }
}

} // verus!
