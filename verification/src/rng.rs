//! The random source: a seeded PCG generator behind trusted wrappers.
//! Nothing is assumed of the drawn values beyond their ranges, so every
//! consumer is verified for every outcome.

use vstd::prelude::*;
use rand::Rng;
use rand::SeedableRng;
use rand::seq::SliceRandom;

verus! {

/// Declares rand_pcg's `Lcg64Xsh32` (the PCG-32 generator) so that
/// verified code can hold and pass one; the generator stays opaque.
#[verifier::external_type_specification]
#[verifier::external_body]
pub struct ExPcg32(rand_pcg::Lcg64Xsh32);

/// Relies on rand_pcg's `Lcg64Xsh32::seed_from_u64`: a deterministic
/// generator built from a 64-bit seed.
#[verifier::external_body]
pub fn rng_from_seed(seed: u64) -> rand_pcg::Pcg32 {
    rand_pcg::Pcg32::seed_from_u64(seed)
}

/// Relies on rand's `Rng::gen_range` over an `i64` range: a value in
/// `[lo, hi)`; the call panics only on an empty range, which the
/// precondition rules out.
#[verifier::external_body]
pub fn rng_range_i64(rng: &mut rand_pcg::Pcg32, lo: i64, hi: i64) -> (r: i64)
    requires
        lo < hi,
    ensures
        lo <= r < hi,
{
    rng.gen_range(lo..hi)
}

/// Relies on rand's `Rng::gen_range` over a `usize` range: an index
/// below `n`; the call panics only on an empty range, which the
/// precondition rules out.
#[verifier::external_body]
pub fn rng_index(rng: &mut rand_pcg::Pcg32, n: usize) -> (r: usize)
    requires
        n > 0,
    ensures
        r < n,
{
    rng.gen_range(0..n)
}

/// Relies on rand's `seq::index::sample`: exactly `amount` distinct
/// indices below `length`, in random order; the call panics only when
/// `amount > length`, which the precondition rules out.
#[verifier::external_body]
pub fn rng_sample(rng: &mut rand_pcg::Pcg32, length: usize, amount: usize) -> (r: Vec<usize>)
    requires
        amount <= length,
    ensures
        r@.len() == amount,
        forall|i: int| 0 <= i < r@.len() ==> (#[trigger] r@[i]) < length,
        forall|i: int, j: int| 0 <= i < j < r@.len() ==> r@[i] != r@[j],
{
    rand::seq::index::sample(rng, length, amount).into_vec()
}

/// Relies on rand's `SliceRandom::shuffle`: the slice after the call
/// holds the same elements, in random order.
#[verifier::external_body]
pub fn rng_shuffle(rng: &mut rand_pcg::Pcg32, v: &mut Vec<usize>)
    ensures
        final(v)@.to_multiset() == old(v)@.to_multiset(),
        final(v)@.len() == old(v)@.len(),
{
    v.shuffle(rng)
}

/// A Bernoulli draw with probability `num / den`, built on the ranged
/// draw.
pub fn rng_chance(rng: &mut rand_pcg::Pcg32, num: i64, den: i64) -> (r: bool)
    requires
        0 < den,
{
    let d = rng_range_i64(rng, 0, den);
    d < num
}

} // verus!
