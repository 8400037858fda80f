//! Randomness sources, wrapped so that verified code states only what holds
//! of every outcome.

use vstd::prelude::*;
use rand::Rng;
use rand::SeedableRng;

verus! {

/// Relies on rand::Rng::random_range over a ChaCha8 generator seeded from the
/// operating system: the result is drawn from `[0, bound)`.
#[verifier::external_body]
pub(crate) fn random_u64_below(bound: u64) -> (r: u64)
    requires
        bound >= 1,
    ensures
        r < bound,
{
    let mut rng = rand_chacha::ChaCha8Rng::from_os_rng();
    rng.random_range(0..bound)
}

/// Relies on rand::Rng::random over StdRng seeded from the operating system:
/// a fresh 32-bit word with no further guarantee.
#[verifier::external_body]
pub(crate) fn random_u32() -> u32 {
    let mut rng = rand::rngs::StdRng::from_os_rng();
    rng.random::<u32>()
}

/// Relies on rand::Rng::random over StdRng seeded from the operating system:
/// a fresh 64-bit word with no further guarantee.
#[verifier::external_body]
pub(crate) fn random_u64() -> u64 {
    let mut rng = rand::rngs::StdRng::from_os_rng();
    rng.random::<u64>()
}

} // verus!
