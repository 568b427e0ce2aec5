//! Random draws for the feed's order generator, from `rand`'s thread-local
//! generator.
use rand::rngs::ThreadRng;
use rand::Rng;
use vstd::prelude::*;

verus! {

/// `rand::rngs::ThreadRng`, the handle to the thread-local generator; opaque here.
#[verifier::external_type_specification]
#[verifier::external_body]
pub struct ExThreadRng(rand::rngs::ThreadRng);

/// Calls `rand::thread_rng`, which hands out the thread-local generator.
/// Nothing is stated of it.
#[verifier::external_body]
pub(crate) fn thread_rng() -> ThreadRng {
    rand::thread_rng()
}

/// Calls `rand::Rng::gen_range` with the range `0..bound`. Its documentation
/// promises a value in the range and a panic on an empty range (excluded by
/// `requires`); which value comes out is left open, as chance decides it.
#[verifier::external_body]
pub(crate) fn random_below(rng: &mut ThreadRng, bound: u64) -> (r: u64)
    requires
        bound > 0,
    ensures
        r < bound,
{
    rng.gen_range(0..bound)
}

/// Calls `rand::Rng::gen_ratio`: `true` with probability
/// `numerator / denominator`. Its documentation promises `false` for a zero
/// numerator and `true` when the numerator equals the denominator, and a panic
/// for a zero denominator or a numerator above it (excluded by `requires`);
/// otherwise the outcome is left open, as chance decides it.
#[verifier::external_body]
pub(crate) fn random_ratio(rng: &mut ThreadRng, numerator: u32, denominator: u32) -> (r: bool)
    requires
        0 < denominator,
        numerator <= denominator,
    ensures
        numerator == 0 ==> !r,
        numerator == denominator ==> r,
{
    rng.gen_ratio(numerator, denominator)
}

} // verus!
