//! Pseudo-random numbers for the spawner, from the `oorandom` crate.
//!
//! The generator state is opaque; nothing is assumed of a drawn value beyond
//! its range, so every caller is verified for every outcome.

use vstd::prelude::*;

verus! {

/// The PCG32 generator of the `oorandom` crate, declared so that the world
/// can own one. Its state stays opaque to the verifier.
#[verifier::external_type_specification]
#[verifier::external_body]
pub struct ExRand32(oorandom::Rand32);

/// Relies on `oorandom::Rand32::new`: builds a generator seeded from the
/// given value. Nothing is assumed about the state it returns.
#[verifier::external_body]
pub fn rng_new(seed: u64) -> oorandom::Rand32 {
    oorandom::Rand32::new(seed)
}

/// Relies on `oorandom::Rand32::rand_range`: draws a value in `[lo, hi)`
/// (Lemire rejection sampling over `rand_u32`, so the result is
/// `lo + floor(draw * (hi - lo) / 2^32)`, always inside the range).
#[verifier::external_body]
pub fn rng_range(rng: &mut oorandom::Rand32, lo: u32, hi: u32) -> (r: u32)
    requires
        lo < hi,
    ensures
        lo <= r < hi,
{
    rng.rand_range(lo..hi)
}

} // verus!
