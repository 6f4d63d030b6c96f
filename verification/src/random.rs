//! Random numbers for picking pivots.

use vstd::prelude::*;

verus! {

/// A number drawn by `rand::random`, which takes it from the generator of
/// the current thread. Nothing is claimed of the number: what is built on
/// it is proved for whatever number comes. The call fails only where the
/// system cannot seed the generator.
#[verifier::external_body]
pub(crate) fn random_number() -> usize {
    rand::random::<usize>()
}

} // verus!
