//! The random source: rand's seedable standard generator, and the two draws
//! the sampler makes from it.

use rand::rngs::StdRng;
use rand::Rng;
use vstd::prelude::*;

verus! {

/// rand's standard seedable generator, carried through as an opaque handle.
#[verifier::external_type_specification]
#[verifier::external_body]
pub struct ExStdRng(StdRng);

/// Relies on rand's `Rng::gen_range` over `0..bound`: it returns a value of
/// the range, and panics only when the range is empty.
#[verifier::external_body]
pub(crate) fn draw_below(rng: &mut StdRng, bound: usize) -> (r: usize)
    requires
        bound > 0,
    ensures
        r < bound,
{
    rng.gen_range(0..bound)
}

/// Relies on rand's `Rng::gen_ratio`: `true` with chance
/// `numerator / denominator`; documented to be always `true` when the two are
/// equal and always `false` when the numerator is 0. It panics when the
/// denominator is 0 or below the numerator.
#[verifier::external_body]
pub(crate) fn bernoulli_ratio(rng: &mut StdRng, numerator: u32, denominator: u32) -> (r: bool)
    requires
        0 < denominator,
        numerator <= denominator,
    ensures
        numerator == denominator ==> r,
        numerator == 0 ==> !r,
{
    rng.gen_ratio(numerator, denominator)
}

} // verus!
