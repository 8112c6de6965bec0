//! Trusted boundary to the `rand` crate: the seeded generator that populates
//! a fresh grid and drives the uniform-random strategy.

use vstd::prelude::*;
use rand::Rng;
use rand::SeedableRng;

verus! {

#[verifier::external_type_specification]
#[verifier::external_body]
pub struct ExStdRng(rand::rngs::StdRng);

/// Relies on `rand::SeedableRng::from_seed` for `StdRng`: builds a generator
/// from the 32-byte seed made by repeating the given byte.  Nothing is
/// claimed of the values it will draw.
#[verifier::external_body]
pub fn rng_from_seed(seed: u8) -> rand::rngs::StdRng {
    rand::SeedableRng::from_seed([seed; 32])
}

/// Relies on `rand::Rng::gen::<usize>`: draws one machine word.  Nothing is
/// claimed of its value; callers must bound it themselves.
#[verifier::external_body]
pub fn rng_next_usize(rng: &mut rand::rngs::StdRng) -> usize {
    rng.gen()
}

/// Relies on `rand::Rng::gen_range` over `0..bound`: draws a value uniformly
/// from that range.  The range must be non-empty, since `gen_range` panics on
/// an empty one; every outcome lies in `0..bound`.
#[verifier::external_body]
pub fn rng_next_below(rng: &mut rand::rngs::StdRng, bound: i32) -> (r: i32)
    requires
        bound >= 1,
    ensures
        0 <= r < bound,
{
    rng.gen_range(0..bound)
}

} // verus!
