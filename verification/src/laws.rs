//! Laws of the arithmetic.
//!
//! Every operation of this crate hands out a well-formed value and says
//! which integer it stands for. The laws below are stated over those
//! integers, and once more over the values themselves: whatever two
//! computations hand out for the two sides of a law is the same value,
//! digit for digit and sign for sign, which is what `==` tests.

use crate::big_integer::BigInteger;
use crate::compare::ordering_of_sign;
use crate::digits::{abs, msb_value, sign_of};
use crate::text::{
    body, decimal_string, digits_of, has_sign, is_canonical_decimal, is_digit, lemma_digits_of_nat_string, lemma_last_offending, lemma_nat_string_of_digits, nat_string,
    offending, parse_spec,
};
use core::cmp::Ordering;
use vstd::prelude::*;
use vstd::std_specs::cmp::PartialEqSpec;

verus! {

/// `r` is what addition hands out for `a` and `b`.
pub open spec fn is_sum(r: BigInteger, a: BigInteger, b: BigInteger) -> bool {
    r.wf() && r@ == a@ + b@
}

/// `r` is what subtraction hands out for `a` and `b`.
pub open spec fn is_difference(r: BigInteger, a: BigInteger, b: BigInteger) -> bool {
    r.wf() && r@ == a@ - b@
}

/// `r` is what multiplication hands out for `a` and `b`.
pub open spec fn is_product(r: BigInteger, a: BigInteger, b: BigInteger) -> bool {
    r.wf() && r@ == a@ * b@
}

/// `r` is what negation hands out for `a`.
pub open spec fn is_negation(r: BigInteger, a: BigInteger) -> bool {
    r.wf() && r@ == -a@
}

/// Well-formed values are equal exactly when they stand for the same
/// integer.
pub proof fn law_equality_is_numeric(a: BigInteger, b: BigInteger)
    requires
        a.wf(),
        b.wf(),
    ensures
        a.eq_spec(&b) <==> a@ == b@,
{
    if a@ == b@ {
        a.lemma_view_injective(&b);
    }
}

/// Reading the canonical decimal form of an integer and writing the
/// result back gives the same string.
pub proof fn law_round_trip(s: Seq<char>)
    requires
        is_canonical_decimal(s),
    ensures
        parse_spec(s) is Ok,
        decimal_string(parse_spec(s).unwrap()) == s,
{
    lemma_last_offending(s);
    if s == seq!['0'] {
        let d = digits_of(s);
        assert(msb_value(d.drop_last()) == 0);
    } else {
        let t = body(s);
        assert forall|j: int| 0 <= j < s.len() implies !offending(s, j) by {
            if has_sign(s) {
                if j > 0 {
                    assert(is_digit(t[j - 1]));
                }
            }
        }
        lemma_nat_string_of_digits(t);
    }
}

/// Writing an integer and reading the text back gives the integer, and
/// what is written is in canonical form.
pub proof fn law_write_then_read(v: int)
    ensures
        is_canonical_decimal(decimal_string(v)),
        parse_spec(decimal_string(v)) == Ok::<int, crate::text::ParseError>(v),
{
    let s = decimal_string(v);
    lemma_last_offending(s);
    if v == 0 {
        let d = digits_of(s);
        assert(msb_value(d.drop_last()) == 0);
    } else {
        let n = abs(v);
        let t = nat_string(n);
        lemma_digits_of_nat_string(n);
        assert(body(s) == t);
    }
}

/// Addition does not depend on the order of its operands.
pub proof fn law_add_commutative(a: BigInteger, b: BigInteger)
    requires
        a.wf(),
        b.wf(),
    ensures
        a@ + b@ == b@ + a@,
        forall|x: BigInteger, y: BigInteger|
            #![trigger is_sum(x, a, b), is_sum(y, b, a)]
            is_sum(x, a, b) && is_sum(y, b, a) ==> x.eq_spec(&y),
{
    assert forall|x: BigInteger, y: BigInteger|
        #![trigger is_sum(x, a, b), is_sum(y, b, a)]
        is_sum(x, a, b) && is_sum(y, b, a) implies x.eq_spec(&y) by {
        x.lemma_view_injective(&y);
    }
}

/// Multiplication does not depend on the order of its operands. The law
/// holds of every product; `*` itself asks only that the digits of its
/// operands can be counted.
pub proof fn law_mul_commutative(a: BigInteger, b: BigInteger)
    requires
        a.wf(),
        b.wf(),
    ensures
        a@ * b@ == b@ * a@,
        forall|x: BigInteger, y: BigInteger|
            #![trigger is_product(x, a, b), is_product(y, b, a)]
            is_product(x, a, b) && is_product(y, b, a) ==> x.eq_spec(&y),
{
    assert forall|x: BigInteger, y: BigInteger|
        #![trigger is_product(x, a, b), is_product(y, b, a)]
        is_product(x, a, b) && is_product(y, b, a) implies x.eq_spec(&y) by {
        x.lemma_view_injective(&y);
    }
}

/// A value and its negation add up to the canonical zero.
pub proof fn law_additive_inverse(a: BigInteger)
    requires
        a.wf(),
    ensures
        a@ + (-a@) == 0,
        forall|n: BigInteger, s: BigInteger|
            #![trigger is_negation(n, a), is_sum(s, a, n)]
            is_negation(n, a) && is_sum(s, a, n) ==> s@ == 0 && s.sign() == 0
                && s.magnitude().len() == 0,
{
    assert forall|n: BigInteger, s: BigInteger|
        #![trigger is_negation(n, a), is_sum(s, a, n)]
        is_negation(n, a) && is_sum(s, a, n) implies s@ == 0 && s.sign() == 0
        && s.magnitude().len() == 0 by {
        s.lemma_wf_facts();
    }
}

/// Addition may be grouped either way.
pub proof fn law_add_associative(a: BigInteger, b: BigInteger, c: BigInteger)
    requires
        a.wf(),
        b.wf(),
        c.wf(),
    ensures
        (a@ + b@) + c@ == a@ + (b@ + c@),
        forall|ab: BigInteger, bc: BigInteger, x: BigInteger, y: BigInteger|
            #![trigger is_sum(ab, a, b), is_sum(x, ab, c), is_sum(bc, b, c), is_sum(y, a, bc)]
            is_sum(ab, a, b) && is_sum(x, ab, c) && is_sum(bc, b, c) && is_sum(y, a, bc)
                ==> x.eq_spec(&y),
{
    assert forall|ab: BigInteger, bc: BigInteger, x: BigInteger, y: BigInteger|
        #![trigger is_sum(ab, a, b), is_sum(x, ab, c), is_sum(bc, b, c), is_sum(y, a, bc)]
        is_sum(ab, a, b) && is_sum(x, ab, c) && is_sum(bc, b, c) && is_sum(
            y,
            a,
            bc,
        ) implies x.eq_spec(&y) by {
        x.lemma_view_injective(&y);
    }
}

/// Multiplication distributes over addition. The law holds of every
/// product; `*` itself asks only that the digits of its operands can be
/// counted.
pub proof fn law_mul_distributive(a: BigInteger, b: BigInteger, c: BigInteger)
    requires
        a.wf(),
        b.wf(),
        c.wf(),
    ensures
        a@ * (b@ + c@) == a@ * b@ + a@ * c@,
        forall|bc: BigInteger, x: BigInteger, ab: BigInteger, ac: BigInteger, y: BigInteger|
            #![trigger is_sum(bc, b, c), is_product(x, a, bc), is_product(ab, a, b), is_product(ac, a, c), is_sum(y, ab, ac)]
            is_sum(bc, b, c) && is_product(x, a, bc) && is_product(ab, a, b) && is_product(
                ac,
                a,
                c,
            ) && is_sum(y, ab, ac) ==> x.eq_spec(&y),
{
    assert(a@ * (b@ + c@) == a@ * b@ + a@ * c@) by (nonlinear_arith);
    assert forall|bc: BigInteger, x: BigInteger, ab: BigInteger, ac: BigInteger, y: BigInteger|
        #![trigger is_sum(bc, b, c), is_product(x, a, bc), is_product(ab, a, b), is_product(ac, a, c), is_sum(y, ab, ac)]
        is_sum(bc, b, c) && is_product(x, a, bc) && is_product(ab, a, b) && is_product(
            ac,
            a,
            c,
        ) && is_sum(y, ab, ac) implies x.eq_spec(&y) by {
        x.lemma_view_injective(&y);
    }
}

/// The quotient is the largest multiple count that fits: for a
/// non-negative dividend and a positive divisor, the quotient times the
/// divisor does not exceed the dividend, and one more divisor does.
pub proof fn law_division_bound(x: BigInteger, y: BigInteger)
    requires
        x.wf(),
        y.wf(),
        x@ >= 0,
        y@ > 0,
    ensures
        (x@ / y@) * y@ <= x@ < (x@ / y@ + 1) * y@,
{
    vstd::arithmetic::div_mod::lemma_fundamental_div_mod(x@, y@);
    vstd::arithmetic::div_mod::lemma_mod_bound(x@, y@);
    assert((x@ / y@) * y@ == y@ * (x@ / y@) && (x@ / y@ + 1) * y@ == y@ * (x@ / y@) + y@)
        by (nonlinear_arith);
}

/// Comparison agrees with subtraction: the ordering of `a` and `b` is the
/// sign of any difference of the two.
pub proof fn law_compare_is_sign_of_difference(a: BigInteger, b: BigInteger)
    requires
        a.wf(),
        b.wf(),
    ensures
        forall|d: BigInteger| #[trigger]
            is_difference(d, a, b) ==> ordering_of_sign(sign_of(a@ - b@)) == ordering_of_sign(
                d.sign(),
            ),
        ordering_of_sign(sign_of(a@ - b@)) == Ordering::Less <==> a@ < b@,
        ordering_of_sign(sign_of(a@ - b@)) == Ordering::Equal <==> a@ == b@,
        ordering_of_sign(sign_of(a@ - b@)) == Ordering::Greater <==> a@ > b@,
{
    assert forall|d: BigInteger| #[trigger] is_difference(d, a, b) implies ordering_of_sign(
        sign_of(a@ - b@),
    ) == ordering_of_sign(d.sign()) by {
        d.lemma_wf_facts();
    }
}

} // verus!
