//! Total orders on element types.
//!
//! The sorting and heap code of this crate is generic over `T: Ord`. What
//! it proves holds for every type whose comparison is a total order that
//! the operators `<` and `>` agree with; this module names that condition
//! and derives from it the facts the proofs use.

use core::cmp::Ordering;
use vstd::laws_cmp::{
    obeys_cmp, obeys_cmp_ord, obeys_cmp_partial_ord, obeys_partial_cmp_spec_properties,
};
use vstd::laws_eq::obeys_eq_spec_properties;
use vstd::prelude::*;
use vstd::std_specs::cmp::OrdSpec;

verus! {

/// The comparison of `T` is a total order, and `==`, `<` and `>` on `T`
/// decide what it says.
pub open spec fn total_order<T: Ord>() -> bool {
    obeys_cmp::<T>()
}

/// `a` is not above `b`.
pub open spec fn le<T: Ord>(a: T, b: T) -> bool {
    a.cmp_spec(&b) != Ordering::Greater
}

/// `a` is below `b`.
pub open spec fn lt<T: Ord>(a: T, b: T) -> bool {
    a.cmp_spec(&b) == Ordering::Less
}

/// `le` is reflexive.
pub proof fn lemma_le_reflexive<T: Ord>(a: T)
    requires
        total_order::<T>(),
    ensures
        le(a, a),
{
    reveal(obeys_partial_cmp_spec_properties);
    reveal(obeys_cmp_ord);
}

/// Of two elements one is not above the other, and `lt` is the negation
/// of the converse `le`.
pub proof fn lemma_le_total<T: Ord>(a: T, b: T)
    requires
        total_order::<T>(),
    ensures
        le(a, b) || le(b, a),
        lt(a, b) <==> !le(b, a),
        lt(a, b) ==> le(a, b),
{
    reveal(obeys_partial_cmp_spec_properties);
    reveal(obeys_cmp_ord);
}

/// `le` is transitive.
pub proof fn lemma_le_transitive<T: Ord>(a: T, b: T, c: T)
    requires
        total_order::<T>(),
        le(a, b),
        le(b, c),
    ensures
        le(a, c),
{
    reveal(obeys_partial_cmp_spec_properties);
    reveal(obeys_cmp_ord);
    reveal(obeys_cmp_partial_ord);
    reveal(obeys_eq_spec_properties);
    if a.cmp_spec(&c) == Ordering::Greater {
        // c < a, and a <= b <= c
        if a.cmp_spec(&b) == Ordering::Less {
            // c < a < b, so c < b, against b <= c
        } else {
            // a == b
            if b.cmp_spec(&c) == Ordering::Less {
                // b < c < a, so b < a, against a == b
            } else {
                // a == b == c
            }
        }
    }
}

/// `lt` is transitive.
pub proof fn lemma_lt_transitive<T: Ord>(a: T, b: T, c: T)
    requires
        total_order::<T>(),
        lt(a, b),
        lt(b, c),
    ensures
        lt(a, c),
{
    lemma_le_total(a, b);
    lemma_le_total(b, c);
    lemma_le_total(a, c);
    if le(c, a) {
        lemma_le_transitive(c, a, b);
    }
}

/// The integers of the machine are totally ordered.
pub proof fn lemma_integers_total_order()
    ensures
        total_order::<i32>(),
        total_order::<i64>(),
        total_order::<u8>(),
        total_order::<u64>(),
        total_order::<usize>(),
{
    broadcast use vstd::laws_cmp::group_laws_cmp;

}

/// `a < b`, as the operator decides it. For a total order that is `lt`.
pub fn less<T: Ord>(a: &T, b: &T) -> (r: bool)
    ensures
        total_order::<T>() ==> r == lt(*a, *b),
{
    proof {
        if total_order::<T>() {
            reveal(obeys_cmp_ord);
            reveal(obeys_cmp_partial_ord);
        }
    }
    *a < *b
}

/// `a <= b`, as the operator decides it. For a total order that is `le`.
pub fn at_most<T: Ord>(a: &T, b: &T) -> (r: bool)
    ensures
        total_order::<T>() ==> r == le(*a, *b),
{
    proof {
        if total_order::<T>() {
            reveal(obeys_cmp_ord);
            reveal(obeys_cmp_partial_ord);
        }
    }
    *a <= *b
}

/// `a == b`, as the operator decides it. For a total order that is for
/// both to be not above each other.
pub fn same<T: Ord>(a: &T, b: &T) -> (r: bool)
    ensures
        total_order::<T>() ==> r == (le(*a, *b) && le(*b, *a)),
{
    proof {
        if total_order::<T>() {
            reveal(obeys_cmp_ord);
            reveal(obeys_cmp_partial_ord);
            reveal(obeys_partial_cmp_spec_properties);
        }
    }
    *a == *b
}

/// `a > b`, as the operator decides it. For a total order that is `lt`
/// with the operands exchanged.
pub fn greater<T: Ord>(a: &T, b: &T) -> (r: bool)
    ensures
        total_order::<T>() ==> r == lt(*b, *a),
{
    proof {
        if total_order::<T>() {
            reveal(obeys_cmp_ord);
            reveal(obeys_cmp_partial_ord);
            reveal(obeys_partial_cmp_spec_properties);
        }
    }
    *a > *b
}

} // verus!
