//! Shared pieces of ensemble training: per-tree seeds and bootstrap draws.
//!
//! The master generator derives one seed per tree up front, so tree `i`
//! always trains from `seeds[i]` no matter how a runner schedules the
//! trees; a runner that concatenates trees in index order therefore
//! reproduces the same ensemble for the same master seed.
use vstd::prelude::*;

use crate::rng::{rng_from_seed, rng_index, rng_next_u64};
use crate::weightable::WEIGHT_MASK;

verus! {

/// Derives `num_trees` per-tree seeds from the master seed.
pub fn derive_seeds(master_seed: u64, num_trees: usize) -> (r: Vec<u64>)
    ensures
        r@.len() == num_trees,
{
    let mut rng = rng_from_seed(master_seed);
    let mut seeds: Vec<u64> = Vec::new();
    let mut i: usize = 0;
    while i < num_trees
        invariant
            seeds@.len() == i,
            i <= num_trees,
        decreases num_trees - i,
    {
        seeds.push(rng_next_u64(&mut rng));
        i = i + 1;
    }
    seeds
}

/// Draws a bootstrap weight vector: `num_samples` draws with replacement,
/// each weight the draw count of its sample. A count above 15 is clamped
/// to 15, the four-bit packing limit, so weights and counts agree exactly
/// up to that cap. At least one sample keeps a positive weight, whichever
/// indices the generator returns.
pub fn draw_bootstrap_weights(rng: &mut rand::rngs::SmallRng, num_samples: usize) -> (r: Vec<
    u32,
>)
    requires
        num_samples >= 1,
    ensures
        r@.len() == num_samples,
        forall|k: int| 0 <= k < num_samples ==> #[trigger] r@[k] <= WEIGHT_MASK,
        exists|k: int| 0 <= k < num_samples && #[trigger] r@[k] > 0,
{
    let mut weights: Vec<u32> = Vec::new();
    let mut i: usize = 0;
    while i < num_samples
        invariant
            weights@.len() == i,
            i <= num_samples,
            forall|k: int| 0 <= k < i ==> #[trigger] weights@[k] == 0,
        decreases num_samples - i,
    {
        weights.push(0);
        i = i + 1;
    }
    let mut d: usize = 0;
    while d < num_samples
        invariant
            num_samples >= 1,
            weights@.len() == num_samples,
            forall|k: int| 0 <= k < num_samples ==> #[trigger] weights@[k] <= WEIGHT_MASK,
            d >= 1 ==> exists|k: int| 0 <= k < num_samples && #[trigger] weights@[k] > 0,
        decreases num_samples - d,
    {
        let i = rng_index(rng, num_samples);
        let wv = weights[i];
        let w = if wv < WEIGHT_MASK {
            wv + 1
        } else {
            wv
        };
        weights.set(i, w);
        proof {
            assert(weights@[i as int] > 0);
        }
        d = d + 1;
    }
    weights
}

} // verus!
