//! Draws from the thread's random number generator.

use rand::Rng;
use vstd::prelude::*;

verus! {

/// A whole number drawn uniformly from `low..=high`.
///
/// Trusted: calls `rand::thread_rng()` and `Rng::gen_range` on the inclusive
/// range, which returns a member of the range and panics where the range is
/// empty; hence the precondition.
#[verifier::external_body]
pub(crate) fn uniform(low: u64, high: u64) -> (drawn: u64)
    requires
        low <= high,
    ensures
        low <= drawn <= high,
{
    rand::thread_rng().gen_range(low..=high)
}

/// A fair coin.
///
/// Trusted: calls `rand::thread_rng()` and `Rng::gen::<bool>()`. Nothing is
/// claimed of the outcome.
#[verifier::external_body]
pub(crate) fn coin() -> (heads: bool) {
    rand::thread_rng().gen()
}

/// Thirty-two random bits.
///
/// Trusted: calls `rand::thread_rng()` and `Rng::gen::<u32>()`. Nothing is
/// claimed of the outcome.
#[verifier::external_body]
pub(crate) fn random_bits() -> (bits: u32) {
    rand::thread_rng().gen()
}

} // verus!
