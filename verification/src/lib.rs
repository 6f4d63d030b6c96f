//! Verified arithmetic, sorting and data structures.
//!
//! The core of the crate is an arbitrary-precision signed integer kept as
//! decimal digits: [`big_integer`] holds the type and its canonical form,
//! [`ops`] the arithmetic on bare digit buffers, [`arith`] the signed
//! operators with the divide-and-conquer multiplication, [`compare`] and
//! [`division`] what their names say, [`text`] reading and writing decimal
//! text, and [`laws`] the laws that the operations obey. [`digits`] is the
//! mathematics underneath: what number a digit buffer stands for.
//!
//! Around it stand a binary heap, a stack that knows its minimum, square
//! matrices with three ways to multiply them, and a collection of sorting
//! and selection algorithms, all generic over the element type where the
//! algorithm is. Every function states what it computes in terms of
//! mathematical integers, sequences and multisets, and Verus proves that
//! it does, without overflow and without panics.

pub mod arith;
pub mod big_integer;
pub mod binary_heap;
pub mod compare;
pub mod count_sort;
pub mod digits;
pub mod division;
pub mod inversions;
pub mod laws;
pub mod matrix;
pub mod matrix_arith;
pub mod matrix_mul;
pub mod merge_sort;
pub mod min_stack;
pub mod ops;
pub mod order;
pub mod quick_sort;
pub mod radix_sort;
mod random;
pub mod select;
pub mod sign;
pub mod slices;
pub mod sorting;
pub mod table;
pub mod text;
pub mod wrapping;
