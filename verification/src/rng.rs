//! Randomness at the piece boundary.

use vstd::prelude::*;

use rand::Rng;

verus! {

/// Relies on rand's `Rng::gen_range` with the range `0..7`, which returns a
/// uniformly drawn value of that range. Nothing but the bound is assumed of
/// the result: every contract downstream holds whatever piece comes back.
#[verifier::external_body]
pub(crate) fn random_piece() -> (r: usize)
    ensures
        r < 7,
{
    rand::thread_rng().gen_range(0..7)
}

} // verus!
