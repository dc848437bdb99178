//! The random draws that the structural operators make, from rand's
//! seedable standard generator.
use vstd::prelude::*;
use rand::Rng;
use rand::rngs::StdRng;

verus! {

/// rand's seedable standard generator, carried through unopened.
#[verifier::external_type_specification]
#[verifier::external_body]
pub struct ExStdRng(StdRng);

/// Relies on rand's `Rng::random_range`: on the non-empty range `0..n` it
/// returns a value of that range.
#[verifier::external_body]
pub(crate) fn random_index(rng: &mut StdRng, n: usize) -> (r: usize)
    requires
        n > 0,
    ensures
        r < n,
{
    rng.random_range(0..n)
}

/// Relies on rand's `Rng::random_ratio`: a fair coin (`1` in `2`).
#[verifier::external_body]
pub(crate) fn random_coin(rng: &mut StdRng) -> (r: bool) {
    rng.random_ratio(1, 2)
}

} // verus!
