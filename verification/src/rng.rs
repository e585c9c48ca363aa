//! The random generator used for bootstrapping and feature subsampling.
//!
//! Training uses `rand`'s `SmallRng`, seeded deterministically. Verus sees
//! the generator as an opaque value; each draw is only known to stay in its
//! range, and a shuffle to keep the elements it was given.
use rand::seq::SliceRandom;
use rand::Rng;
use rand::SeedableRng;
use vstd::prelude::*;

verus! {

#[verifier::external_type_specification]
#[verifier::external_body]
pub struct ExSmallRng(rand::rngs::SmallRng);

/// Relies on SmallRng::seed_from_u64: builds a generator from a seed.
#[verifier::external_body]
pub(crate) fn rng_from_seed(seed: u64) -> rand::rngs::SmallRng {
    rand::rngs::SmallRng::seed_from_u64(seed)
}

/// Relies on Rng::random: draws a full-range `u64`.
#[verifier::external_body]
pub(crate) fn rng_next_u64(rng: &mut rand::rngs::SmallRng) -> u64 {
    rng.random()
}

/// Relies on Rng::random_range: draws an index uniformly from `0..n`.
#[verifier::external_body]
pub(crate) fn rng_index(rng: &mut rand::rngs::SmallRng, n: usize) -> (r: usize)
    requires
        n > 0,
    ensures
        r < n,
{
    rng.random_range(0..n)
}

/// Relies on SliceRandom::shuffle: permutes the vector in place, keeping
/// exactly the elements it held.
#[verifier::external_body]
pub(crate) fn rng_shuffle(rng: &mut rand::rngs::SmallRng, v: &mut Vec<usize>)
    ensures
        final(v)@.len() == old(v)@.len(),
        final(v)@.to_multiset() == old(v)@.to_multiset(),
{
    v.as_mut_slice().shuffle(rng);
}

} // verus!
