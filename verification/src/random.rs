//! The few calls this library makes into the `rand` crate.

use rand::rngs::StdRng;
use vstd::prelude::*;

verus! {

/// `rand::rngs::StdRng`, the generator every random operation of this library
/// draws from. Nothing is known of its state.
#[verifier::external_type_specification]
#[verifier::external_body]
pub struct ExStdRng(StdRng);

/// Calls `rand::SeedableRng::seed_from_u64` for `StdRng`. Nothing is claimed of
/// the generator that comes back.
#[verifier::external_body]
pub(crate) fn seeded(seed: u64) -> StdRng {
    rand::SeedableRng::seed_from_u64(seed)
}

/// Calls `rand::Rng::gen_range` on the half-open range `0..bound`, which
/// panics on an empty range and otherwise returns a member of the range.
#[verifier::external_body]
pub(crate) fn draw_below(rng: &mut StdRng, bound: u64) -> (r: u64)
    requires
        bound > 0,
    ensures
        r < bound,
{
    rand::Rng::gen_range(rng, 0..bound)
}

/// Calls `rand::Rng::gen_ratio`, which panics if the denominator is zero or
/// smaller than the numerator, returns `true` for certain when both are equal
/// and `false` for certain when the numerator is zero.
#[verifier::external_body]
pub(crate) fn draw_ratio(rng: &mut StdRng, numerator: u32, denominator: u32) -> (r: bool)
    requires
        denominator > 0,
        numerator <= denominator,
    ensures
        numerator == denominator ==> r,
        numerator == 0 ==> !r,
{
    rand::Rng::gen_ratio(rng, numerator, denominator)
}

} // verus!
