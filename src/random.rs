//! Draws from rand's thread-local generator.
use vstd::prelude::*;
use rand::Rng;
use rand::rngs::ThreadRng;

verus! {

#[verifier::external_type_specification]
#[verifier::external_body]
pub struct ExThreadRng(ThreadRng);

/// Relies on rand's `Rng::gen_range` over `0..bound`: a value of that range
/// (the call panics on an empty range, which `requires` rules out).
#[verifier::external_body]
pub(crate) fn random_below(rng: &mut ThreadRng, bound: u64) -> (r: u64)
    requires
        bound > 0,
    ensures
        r < bound,
{
    rng.gen_range(0..bound)
}

/// Relies on rand's `Rng::gen_ratio`: `true` with chance
/// `numerator / denominator`; never when the numerator is 0, always when it
/// equals the denominator (the call panics on a zero denominator or a
/// numerator above it, which `requires` rules out).
#[verifier::external_body]
pub(crate) fn random_ratio(rng: &mut ThreadRng, numerator: u32, denominator: u32) -> (r: bool)
    requires
        0 < denominator,
        numerator <= denominator,
    ensures
        numerator == 0 ==> !r,
        numerator == denominator ==> r,
{
    rng.gen_ratio(numerator, denominator)
}

/// A draw below `bound` as an index.
pub fn random_index(rng: &mut ThreadRng, bound: usize) -> (r: usize)
    requires
        bound > 0,
    ensures
        r < bound,
{
    random_below(rng, bound as u64) as usize
}

} // verus!
