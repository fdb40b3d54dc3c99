//! Trusted boundary around the `rand` crate: the model draws uniform
//! integers from a caller-supplied or entropy-seeded `StdRng` and is
//! verified for every value such a draw can take.

use rand::Rng;
use rand::SeedableRng;
use rand::rngs::StdRng;
use vstd::prelude::*;

verus! {

#[verifier::external_type_specification]
#[verifier::external_body]
pub struct ExStdRng(StdRng);

/// Relies on rand's `SeedableRng::from_entropy`: a fresh generator seeded
/// from system entropy. Nothing can be promised of its draws.
#[verifier::external_body]
pub(crate) fn rng_from_entropy() -> StdRng {
    StdRng::from_entropy()
}

/// Relies on rand's `Rng::gen_range` over `0..bound`: a draw below
/// `bound`, for any generator state. The call panics only on an empty
/// range, which the precondition rules out.
#[verifier::external_body]
pub(crate) fn gen_range_u64(rng: &mut StdRng, bound: u64) -> (r: u64)
    requires
        bound > 0,
    ensures
        r < bound,
{
    rng.gen_range(0..bound)
}

} // verus!
