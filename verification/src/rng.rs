//! Randomness for the simulator. Every random draw comes from a
//! `fastrand::Rng` handle that the caller passes in, so a simulation can be
//! seeded deterministically and workers never share hidden state.

use vstd::prelude::*;

verus! {

#[verifier::external_type_specification]
#[verifier::external_body]
pub struct ExRng(fastrand::Rng);

/// Relies on fastrand::Rng::usize over the half-open range below `n`: for a
/// non-empty range the draw always lies inside it.
#[verifier::external_body]
pub fn rand_below(rng: &mut fastrand::Rng, n: usize) -> (r: usize)
    requires
        n > 0,
    ensures
        r < n,
{
    rng.usize(..n)
}

/// Relies on fastrand::Rng::bool. Nothing is promised of a random draw.
#[verifier::external_body]
pub fn rand_bool(rng: &mut fastrand::Rng) -> bool {
    rng.bool()
}

} // verus!
