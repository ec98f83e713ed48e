//! Random draws.

use rand::{Rng, RngExt};
use vstd::prelude::*;

verus! {

/// An ASCII letter or digit.
pub open spec fn is_alphanumeric(b: u8) -> bool {
    48 <= b <= 57 || 65 <= b <= 90 || 97 <= b <= 122
}

/// Draws a number from `low` to `high`, both included.
///
/// Calls `rand::RngExt::random_range` on `rand::rng()`, which panics on an empty range and
/// hands back some number of a range that is not. Which one is chance.
#[verifier::external_body]
pub(crate) fn random_range(low: i64, high: i64) -> (r: i64)
    requires
        low <= high,
    ensures
        low <= r <= high,
{
    rand::rng().random_range(low..=high)
}

/// Draws a letter or digit.
///
/// Calls `rand::RngExt::sample` on `rand::rng()` with `rand::distr::Alphanumeric`, which
/// hands back some ASCII letter or digit. Which one is chance.
#[verifier::external_body]
pub(crate) fn random_alphanumeric() -> (r: u8)
    ensures
        is_alphanumeric(r),
{
    rand::rng().sample(rand::distr::Alphanumeric)
}

/// Fills a buffer with random bytes.
///
/// Calls `rand::Rng::fill_bytes` on `rand::rng()`, which writes over the bytes of the
/// buffer, whose length stays. What it writes is chance.
#[verifier::external_body]
pub(crate) fn fill_bytes(buf: &mut [u8])
    ensures
        final(buf)@.len() == old(buf)@.len(),
{
    rand::rng().fill_bytes(buf)
}

} // verus!
