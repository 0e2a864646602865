//! The source of chance.

use vstd::prelude::*;
use rand::Rng;

verus! {

/// Draws a number from the thread's generator with
/// `rand::thread_rng().gen_range(0..bound)`: some number below `bound`.
/// Which one is left to chance, so two calls may give different numbers.
#[verifier::external_body]
pub(crate) fn draw_below(bound: u128) -> (v: u128)
    requires
        bound > 0,
    ensures
        v < bound,
{
    rand::thread_rng().gen_range(0..bound)
}

} // verus!
