//! The randomness source of the seeder.
//!
//! Seeding must be injectable and seedable for reproducible runs, so the
//! source is a value handed in by the caller rather than a process-global
//! generator. Everything random comes from the `rand` crate through the
//! trusted declarations below; nothing is promised about which values come
//! out, only that they lie in the stated ranges.

use vstd::prelude::*;

verus! {

/// Declares rand's standard generator so that a field can hold one; its
/// state stays opaque to the verifier.
#[verifier::external_type_specification]
#[verifier::external_body]
pub struct ExStdRng(rand::rngs::StdRng);

/// A weighted sampler over a table of `u64` weights. The `rand` type it
/// wraps carries trait bounds Verus cannot declare, so the whole struct is
/// opaque; `index_weights` names the table it holds.
#[verifier::external_body]
pub struct WeightedSampler {
    inner: rand::distributions::WeightedIndex<u64>,
}

/// The total of a table of sampling weights.
pub open spec fn weight_sum(s: Seq<u64>) -> int
    decreases s.len(),
{
    if s.len() == 0 {
        0
    } else {
        weight_sum(s.drop_last()) + s.last()
    }
}

/// The weight table a `WeightedSampler` was built over.
pub uninterp spec fn index_weights(d: WeightedSampler) -> Seq<u64>;

/// An injectable source of randomness for the seeder.
pub struct RandomSource {
    inner: rand::rngs::StdRng,
}

impl RandomSource {
    /// A deterministic source: the same seed replays the same choices.
    ///
    /// Relies on rand's `SeedableRng::seed_from_u64`.
    #[verifier::external_body]
    pub fn from_seed(seed: u64) -> RandomSource {
        RandomSource { inner: rand::SeedableRng::seed_from_u64(seed) }
    }

    /// A source seeded from the operating system's entropy.
    ///
    /// Relies on rand's `SeedableRng::from_entropy`, which panics only if
    /// the operating system's entropy source fails — an environmental
    /// failure, like running out of memory, not a function of any input.
    #[verifier::external_body]
    pub fn from_entropy() -> RandomSource {
        RandomSource { inner: rand::SeedableRng::from_entropy() }
    }

    /// A uniformly random index below `n`.
    ///
    /// Relies on rand's `Rng::gen_range` over `0..n`, which returns a value
    /// of the range and panics only on an empty one, excluded here.
    #[verifier::external_body]
    pub fn sample_index(&mut self, n: usize) -> (r: usize)
        requires
            n > 0,
        ensures
            r < n,
    {
        rand::Rng::gen_range(&mut self.inner, 0..n)
    }
}

/// A sampler over a non-empty weight table with a positive total that fits
/// the weight type.
///
/// Relies on rand's `WeightedIndex::new`, which returns `Ok` exactly when
/// the weights are non-empty, none is negative (always true of `u64`), and
/// their total is neither zero nor an overflow of `u64`; the precondition
/// grants all of that, so the construction cannot fail or panic.
#[verifier::external_body]
pub(crate) fn weighted_index_new(weights: &Vec<u64>) -> (d: WeightedSampler)
    requires
        weights@.len() > 0,
        weight_sum(weights@) > 0,
        weight_sum(weights@) <= u64::MAX,
    ensures
        index_weights(d) == weights@,
{
    WeightedSampler { inner: rand::distributions::WeightedIndex::new(weights).unwrap() }
}

/// One draw from a weighted sampler: an index of its weight table, chosen
/// with probability proportional to its weight.
///
/// Relies on rand's `Distribution::sample` for `WeightedIndex`: the result
/// indexes the table the sampler was built over, and an index of weight
/// zero is never returned.
#[verifier::external_body]
pub(crate) fn weighted_index_sample(
    source: &mut RandomSource,
    d: &WeightedSampler,
) -> (r: usize)
    ensures
        r < index_weights(*d).len(),
        index_weights(*d)[r as int] > 0,
{
    rand::distributions::Distribution::sample(&d.inner, &mut source.inner)
}

} // verus!
