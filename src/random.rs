use rand::rngs::StdRng;
use rand::Rng;
use vstd::prelude::*;

verus! {

/// The random number generator that placement and the opponent draw from; a
/// caller seeds it, so a game can be replayed.
#[verifier::external_type_specification]
#[verifier::external_body]
pub struct ExStdRng(StdRng);

/// Relies on rand's `Rng::gen_range` over `0..bound`: a value below `bound`;
/// it panics only on an empty range, which `requires` rules out.
#[verifier::external_body]
pub(crate) fn random_below(rng: &mut StdRng, bound: usize) -> (r: usize)
    requires
        0 < bound,
    ensures
        r < bound,
{
    rng.gen_range(0..bound)
}

/// Relies on rand's `Rng::gen::<bool>`: a coin toss, which never fails.
#[verifier::external_body]
pub(crate) fn random_bool(rng: &mut StdRng) -> (r: bool) {
    rng.gen::<bool>()
}

} // verus!
