//! Trusted access to the rand crate: the seedable generator that the solver
//! and the generator hold, and the in-place shuffle they draw on.

use vstd::prelude::*;

use rand::seq::SliceRandom;

verus! {

/// rand's standard pseudo-random generator; opaque to verification.
#[verifier::external_type_specification]
#[verifier::external_body]
pub struct ExStdRng(rand::rngs::StdRng);

/// Relies on rand::SeedableRng::from_entropy: a fresh generator seeded from
/// the operating system's entropy source. Nothing can be promised of its
/// state; it panics only if that source fails.
#[verifier::external_body]
pub(crate) fn rng_from_entropy() -> rand::rngs::StdRng {
    <rand::rngs::StdRng as rand::SeedableRng>::from_entropy()
}

/// Relies on rand::SeedableRng::seed_from_u64: a generator derived from the
/// seed alone, so a fixed seed reproduces a fixed run.
#[verifier::external_body]
pub(crate) fn rng_from_seed(seed: u64) -> rand::rngs::StdRng {
    <rand::rngs::StdRng as rand::SeedableRng>::seed_from_u64(seed)
}

/// Relies on rand::seq::SliceRandom::shuffle: a Fisher-Yates pass that only
/// swaps elements in place, so whatever order comes out, the result holds
/// exactly the elements that went in.
#[verifier::external_body]
pub(crate) fn shuffle_vec<T>(rng: &mut rand::rngs::StdRng, v: &mut Vec<T>)
    ensures
        final(v)@.len() == old(v)@.len(),
        final(v)@.to_multiset() == old(v)@.to_multiset(),
{
    v.shuffle(rng);
}

} // verus!
