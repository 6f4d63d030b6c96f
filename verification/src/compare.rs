//! Comparison of [`BigInteger`] values.
//!
//! Two values are compared by the sign of their difference, so the order
//! cannot disagree with the arithmetic.

use crate::big_integer::BigInteger;
use crate::digits::sign_of;
use core::cmp::Ordering;
use vstd::prelude::*;
use vstd::std_specs::cmp::PartialOrdSpecImpl;

verus! {

/// The ordering a sign stands for: `Less` for a negative difference,
/// `Equal` for zero, `Greater` for a positive one.
pub open spec fn ordering_of_sign(s: int) -> Ordering {
    if s < 0 {
        Ordering::Less
    } else if s == 0 {
        Ordering::Equal
    } else {
        Ordering::Greater
    }
}

/// Compares two values: the sign of `a - b`, read as an ordering.
pub fn compare(a: &BigInteger, b: &BigInteger) -> (r: Ordering)
    ensures
        r == ordering_of_sign(sign_of(a@ - b@)),
        r == Ordering::Less <==> a@ < b@,
        r == Ordering::Equal <==> a@ == b@,
        r == Ordering::Greater <==> a@ > b@,
{
    let difference = a.clone() - b.clone();
    let s = difference.signum();
    if s > 0 {
        Ordering::Greater
    } else if s == 0 {
        Ordering::Equal
    } else {
        Ordering::Less
    }
}

impl BigInteger {
    /// Compares `self` with `other`; see [`compare`].
    pub fn cmp(&self, other: &BigInteger) -> (r: Ordering)
        ensures
            r == ordering_of_sign(sign_of(self@ - other@)),
    {
        compare(self, other)
    }
}

/// `<`, `<=`, `>` and `>=` order values as the integers they stand for.
impl PartialOrdSpecImpl for BigInteger {
    open spec fn obeys_partial_cmp_spec() -> bool {
        true
    }

    open spec fn partial_cmp_spec(&self, other: &BigInteger) -> Option<Ordering> {
        Some(ordering_of_sign(sign_of(self@ - other@)))
    }
}

impl PartialOrd for BigInteger {
    fn partial_cmp(&self, other: &BigInteger) -> (r: Option<Ordering>) {
        Some(compare(self, other))
    }
}

} // verus!
