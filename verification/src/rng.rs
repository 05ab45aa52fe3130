//! Randomness for seed vectors, drawn through the `rand` crate.

use vstd::prelude::*;
use rand::Rng;

verus! {

/// Relies on `rand::rng` and `rand::Rng::random_range`: a value drawn
/// uniformly from the half-open range below `bound`; the range must not
/// be empty.
#[verifier::external_body]
pub(crate) fn random_below(bound: u64) -> (r: u64)
    requires
        bound >= 1,
    ensures
        r < bound,
{
    rand::rng().random_range(0..bound)
}

/// Relies on `rand::rng` and `rand::Rng::random_range`: an arbitrary
/// machine-word pair; nothing is promised of the value drawn.
#[verifier::external_body]
pub(crate) fn random_u128() -> u128 {
    rand::rng().random_range(0..=u128::MAX)
}

} // verus!
