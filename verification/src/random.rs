//! Random number sources used by the renderer.
use rand::rngs::SmallRng;
use rand::Rng;
use rand_distr::uniform::SampleRange;
use vstd::prelude::*;

verus! {

/// The small, fast pseudo random number generator of the `rand` crate.
#[verifier::external_type_specification]
#[verifier::external_body]
pub struct ExSmallRng(SmallRng);

/// Samples uniformly from the half-open range `low..high` with
/// `rand::distributions::uniform::SampleRange::sample_single`.
/// Claimed: the result lies in the range (the sampler asserts `low < high`,
/// which the precondition guarantees). Which value comes out is left open.
#[verifier::external_body]
pub(crate) fn sample_single_usize(low: usize, high: usize, rng: &mut SmallRng) -> (r: usize)
    requires
        low < high,
    ensures
        low <= r < high,
{
    (low..high).sample_single(rng)
}

/// Samples uniformly from the closed range `low..=high` with `rand::Rng::gen_range`.
/// Claimed: the result lies in the range (`gen_range` panics only on an
/// empty range, which the precondition rules out). Which value comes out is left open.
#[verifier::external_body]
pub(crate) fn gen_range_inclusive_i32(low: i32, high: i32, rng: &mut SmallRng) -> (r: i32)
    requires
        low <= high,
    ensures
        low <= r <= high,
{
    rng.gen_range(low..=high)
}

/// A fair coin flip with `rand::Rng::gen::<bool>()`, which tests the top bit
/// of the next 32 random bits. Nothing is claimed of which value comes out.
#[verifier::external_body]
pub(crate) fn coin_flip(rng: &mut SmallRng) -> (r: bool) {
    rng.gen::<bool>()
}

} // verus!
