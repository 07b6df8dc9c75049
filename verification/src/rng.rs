//! The crate's only source of randomness: a seedable generator from the
//! `rand` crate, reached through two trusted wrappers. Every caller is
//! verified for every value the generator may hand back.

use vstd::prelude::*;

verus! {

#[verifier::external_type_specification]
#[verifier::external_body]
pub struct ExStdRng(rand::rngs::StdRng);

/// Relies on rand's `SeedableRng::seed_from_u64` for `StdRng`: builds a
/// generator deterministically from a 64-bit seed. Nothing is claimed of the
/// values it will produce.
#[verifier::external_body]
pub fn seed_rng(seed: u64) -> rand::rngs::StdRng {
    <rand::rngs::StdRng as rand::SeedableRng>::seed_from_u64(seed)
}

/// Relies on rand's `RngExt::random_range` over `0..bound`: returns a value
/// below `bound`. The call panics only on an empty range, which the
/// precondition rules out; which value comes back is left open.
#[verifier::external_body]
pub fn rand_below(rng: &mut rand::rngs::StdRng, bound: usize) -> (r: usize)
    requires
        bound >= 1,
    ensures
        r < bound,
{
    rand::RngExt::random_range(rng, 0..bound)
}

} // verus!
