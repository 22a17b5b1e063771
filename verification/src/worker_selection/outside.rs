//! The source of random numbers.

use vstd::prelude::*;

verus! {

/// Calls `fastrand::usize` on the range up to `bound`, which gives a number below it and
/// panics when there is none. Which number is a matter of chance.
#[verifier::external_body]
pub(crate) fn random_below(bound: usize) -> (drawn: usize)
    requires
        bound > 0,
    ensures
        drawn < bound,
{
    fastrand::usize(..bound)
}

} // verus!
