//! The injectable random source: a seeded deterministic generator,
//! held behind trusted declarations of the `rand` crate's items.
//!
//! Every draw is uniform over a caller-given half-open range; nothing
//! more is assumed of the values, so everything proved about the
//! workload holds for every possible draw.

use vstd::prelude::*;

verus! {

#[verifier::external_type_specification]
#[verifier::external_body]
pub struct ExStdRng(rand::rngs::StdRng);

/// Relies on rand's `SeedableRng::seed_from_u64`: builds a
/// deterministic generator from the seed.
#[verifier::external_body]
pub fn rng_from_seed(seed: u64) -> rand::rngs::StdRng {
    <rand::rngs::StdRng as rand::SeedableRng>::seed_from_u64(seed)
}

/// Relies on rand's `RngExt::random_range` over `lo..hi`: the sample
/// lies in the half-open range, and the call panics only on an empty
/// range, which the precondition rules out.
#[verifier::external_body]
pub fn rng_below(rng: &mut rand::rngs::StdRng, lo: u64, hi: u64) -> (r: u64)
    requires
        lo < hi,
    ensures
        lo <= r < hi,
{
    rand::RngExt::random_range(rng, lo..hi)
}

} // verus!
