//! The source of randomness: the thread-local generator of the `rand` crate.
//!
//! Nothing is proved of these functions; their contracts state what `rand`
//! documents and hold of every value that may be drawn.

use vstd::prelude::*;
use rand::Rng;

verus! {

/// Calls `rand::Rng::gen_range` on `rand::thread_rng()` with the half-open
/// range `low..high`. `gen_range` panics on an empty range, which the
/// precondition excludes; the value it returns lies in the range.
#[verifier::external_body]
pub(crate) fn random_in_range(low: u128, high: u128) -> (r: u128)
    requires
        low < high,
    ensures
        low <= r < high,
{
    rand::thread_rng().gen_range(low..high)
}

/// Calls `rand::Rng::gen` on `rand::thread_rng()` for an `i128`. Any value of
/// the type may come back, so nothing is claimed of it.
#[verifier::external_body]
pub(crate) fn random_signed() -> (r: i128) {
    rand::thread_rng().gen()
}

} // verus!
