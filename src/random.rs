//! The random source of the generators: rand's seedable standard generator.
use vstd::prelude::*;
use rand::rngs::StdRng;

verus! {

#[verifier::external_type_specification]
#[verifier::external_body]
pub struct ExStdRng(rand::rngs::StdRng);

/// Relies on rand's `SeedableRng::seed_from_u64`: a generator whose whole
/// output is determined by `seed`.
#[verifier::external_body]
pub(crate) fn rng_from_seed(seed: u64) -> StdRng {
    <StdRng as rand::SeedableRng>::seed_from_u64(seed)
}

/// Relies on rand's `SeedableRng::from_rng` over `rand::rngs::OsRng`: a
/// generator seeded from the operating system's entropy source through
/// `try_fill_bytes`; `None` when that source returns an error.
#[verifier::external_body]
pub(crate) fn rng_from_entropy() -> Option<StdRng> {
    <StdRng as rand::SeedableRng>::from_rng(rand::rngs::OsRng).ok()
}

/// Relies on rand's `SliceRandom::shuffle`: the items are permuted in place
/// by swaps, so the same items remain.
#[verifier::external_body]
pub(crate) fn shuffle<T>(rng: &mut StdRng, v: &mut Vec<T>)
    ensures
        final(v)@.len() == old(v)@.len(),
        final(v)@.to_multiset() == old(v)@.to_multiset(),
{
    rand::seq::SliceRandom::shuffle(v.as_mut_slice(), rng)
}

/// Relies on rand's `Rng::gen_range` over `0..n`: a value below `n`. The
/// range is never empty.
#[verifier::external_body]
pub(crate) fn random_below(rng: &mut StdRng, n: usize) -> (r: usize)
    requires
        n > 0,
    ensures
        r < n,
{
    rand::Rng::gen_range(rng, 0..n)
}

} // verus!
