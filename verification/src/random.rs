//! The one source of chance.

use rand::Rng;
use vstd::prelude::*;

verus! {

/// Draws a number below `bound` by `rand::Rng::gen_range` on `0..bound`, with
/// the generator that `rand::thread_rng` keeps for the current thread.
///
/// Trusted, not proved: the number drawn lies in the range handed over, that
/// is below `bound`. Which number it is depends on chance, so nothing more is
/// claimed of it, and two draws with one bound may differ. `gen_range` panics
/// on an empty range, which `bound > 0` leaves out. `thread_rng` panics where
/// the system gives it no seed, whatever the bound.
#[verifier::external_body]
pub(crate) fn random_below(bound: usize) -> (r: usize)
    requires
        bound > 0,
    ensures
        r < bound,
{
    rand::thread_rng().gen_range(0..bound)
}

} // verus!
