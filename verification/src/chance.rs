//! Random choices. What comes back from the generator is not known before the
//! call: the contracts here state the range of a choice and nothing more.

use rand::rngs::ThreadRng;
use rand::Rng;
use vstd::prelude::*;

verus! {

/// The handle on the random number generator of the current thread, from the
/// crate `rand`. Nothing is known of its state.
#[verifier::external_type_specification]
#[verifier::external_body]
pub struct ExThreadRng(ThreadRng);

/// `rand::thread_rng`: hands out the generator of the current thread. Nothing
/// is claimed of the generator.
pub assume_specification[ rand::thread_rng ]() -> (rng: ThreadRng)
;

/// `Rng::gen_range` on the closed range from `low` to `high`: a number in
/// that range. The range must not be empty.
#[verifier::external_body]
pub(crate) fn pick_between(rng: &mut ThreadRng, low: u64, high: u64) -> (r: u64)
    requires
        low <= high,
    ensures
        low <= r <= high,
{
    rng.gen_range(low..=high)
}

/// A random position below `bound`.
pub fn pick_below(rng: &mut ThreadRng, bound: usize) -> (r: usize)
    requires
        bound > 0,
    ensures
        r < bound,
{
    pick_between(rng, 0, (bound - 1) as u64) as usize
}

/// `Rng::gen_ratio`: `true` with a chance of `numerator` in `denominator`, so
/// always where the two are equal and never where `numerator` is 0. The
/// denominator must not be 0 nor less than the numerator.
#[verifier::external_body]
pub(crate) fn one_in(rng: &mut ThreadRng, numerator: u32, denominator: u32) -> (b: bool)
    requires
        denominator > 0,
        numerator <= denominator,
    ensures
        numerator == denominator ==> b,
        numerator == 0 ==> !b,
{
    rng.gen_ratio(numerator, denominator)
}

} // verus!
