//! The engine's source of randomness.
//!
//! Learning and generation draw random indices from a pseudo-random number
//! generator owned by the `Lexicon`.  The generator itself comes from the
//! `rand` crate and is opaque here; the only fact the engine relies on is
//! that a drawn index lies below the requested bound.

use rand::RngExt;
use rand::SeedableRng;
use vstd::prelude::*;

verus! {

#[verifier::external_type_specification]
#[verifier::external_body]
pub struct ExStdRng(rand::rngs::StdRng);

/// A seedable pseudo-random number generator for the engine.
pub struct LexRng {
    inner: rand::rngs::StdRng,
}

impl LexRng {
    /// Relies on `rand::SeedableRng::seed_from_u64` to build a
    /// deterministically seeded `StdRng`.
    #[verifier::external_body]
    pub fn from_seed(seed: u64) -> (r: LexRng) {
        LexRng { inner: rand::rngs::StdRng::seed_from_u64(seed) }
    }

    /// Relies on `rand::RngExt::random_range`: the result lies in the given
    /// range, and the call panics only when the range is empty.
    #[verifier::external_body]
    pub fn below(&mut self, n: usize) -> (r: usize)
        requires
            n >= 1,
        ensures
            r < n,
    {
        self.inner.random_range(0..n)
    }
}

} // verus!
