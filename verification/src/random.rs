//! The random source of the simulation. The generator is `fastrand`'s; what
//! this module states of its draws is the range they fall in, which holds of
//! every draw.

use fastrand::Rng;
use vstd::prelude::*;

verus! {

/// The generator `fastrand::Rng`. Nothing is known of its state: it is
/// handed on to the calls below, and to them only.
#[verifier::external_type_specification]
#[verifier::external_body]
pub struct ExRng(Rng);

/// Calls `fastrand::Rng::bool`: a coin toss, of which nothing is known
/// beforehand.
#[verifier::external_body]
pub(crate) fn toss(rng: &Rng) -> bool {
    rng.bool()
}

/// Calls `fastrand::Rng::u64` on the full range: any `u64` may come.
#[verifier::external_body]
pub(crate) fn draw_u64(rng: &Rng) -> u64 {
    rng.u64(..)
}

/// Calls `fastrand::Rng::u16` on the range `low..`: the draw is at least
/// `low`. The range holds `low` itself, so it is never empty.
#[verifier::external_body]
pub(crate) fn draw_u16_from(rng: &Rng, low: u16) -> (n: u16)
    ensures
        low <= n,
{
    rng.u16(low..)
}

/// Calls `fastrand::Rng::u128` on the range `low..high`: the draw is at
/// least `low` and below `high`. The generator panics on an empty range,
/// which `requires` leaves out.
#[verifier::external_body]
pub(crate) fn draw_u128(rng: &Rng, low: u128, high: u128) -> (n: u128)
    requires
        low < high,
    ensures
        low <= n < high,
{
    rng.u128(low..high)
}

} // verus!
