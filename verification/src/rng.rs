//! The library's single source of randomness.

use vstd::prelude::*;

verus! {

/// Relies on `rand::random_range` over `0..bound` on the thread-local
/// generator: the result lies in the range; sampling an empty range panics,
/// which the precondition rules out.
#[verifier::external_body]
pub(crate) fn random_below(bound: usize) -> (r: usize)
    requires
        bound > 0,
    ensures
        r < bound,
{
    rand::random_range(0..bound)
}

} // verus!
