//! The process-wide random source, as far as the generators draw integers
//! and coin flips from it.
use rand::Rng;
use vstd::prelude::*;

verus! {

/// `rand::rngs::ThreadRng`, the handle to a thread's generator. Nothing of
/// what it holds is visible here.
#[verifier::external_type_specification]
#[verifier::external_body]
pub struct ExThreadRng(rand::rngs::ThreadRng);

/// `rand::thread_rng`: hands out the calling thread's generator. Nothing is
/// claimed about the handle.
pub assume_specification[ rand::thread_rng ]() -> (rng: rand::rngs::ThreadRng);

/// `Rng::gen_range` on the half-open range `low..high` of `usize`: the draw
/// lies inside the range. The range must not be empty, as `gen_range`
/// panics on an empty one.
#[verifier::external_body]
pub(crate) fn gen_range(rng: &mut rand::rngs::ThreadRng, low: usize, high: usize) -> (k: usize)
    requires
        low < high,
    ensures
        low <= k < high,
{
    rng.gen_range(low..high)
}

/// `Rng::gen_ratio(1, 2)`: a fair coin. Nothing is claimed about the
/// outcome.
#[verifier::external_body]
pub(crate) fn gen_coin(rng: &mut rand::rngs::ThreadRng) -> (heads: bool) {
    rng.gen_ratio(1, 2)
}

} // verus!
