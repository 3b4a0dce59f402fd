//! Trusted boundary to the `rand` crate: the only randomness the library
//! consumes is a uniform sample below a given bound.

use rand::Rng;
use vstd::prelude::*;

verus! {

#[verifier::external_type_specification]
#[verifier::external_body]
pub struct ExThreadRng(rand::rngs::ThreadRng);

/// Relies on rand's `Rng::gen_range` over `0..bound`: it returns a value of
/// the half-open range, which is non-empty because `bound > 0`.  Nothing
/// further is assumed of the sample: callers must cope with every outcome.
#[verifier::external_body]
pub(crate) fn sample_below(rng: &mut rand::rngs::ThreadRng, bound: usize) -> (r: usize)
    requires
        bound > 0,
    ensures
        r < bound,
{
    rng.gen_range(0..bound)
}

} // verus!
