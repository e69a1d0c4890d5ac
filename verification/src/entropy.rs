//! The random source. Nothing here is proved: each item states what the
//! `rand` crate documents of its generator, and no more.

use rand::rngs::ThreadRng;
use vstd::prelude::*;

verus! {

/// `rand::rngs::ThreadRng`, the handle to the thread-local generator. Its
/// state is opaque to the verifier.
#[verifier::external_type_specification]
#[verifier::external_body]
pub struct ExThreadRng(ThreadRng);

/// `rand::thread_rng` hands out the calling thread's generator, seeded by the
/// operating system on first use. Nothing is claimed of the handle. Where the
/// operating system has no entropy to give, the first call panics; no input
/// of this library decides that.
pub assume_specification[ rand::thread_rng ]() -> (rng: ThreadRng);

/// `rand::Rng::gen_range` on the half-open range `low..high`: the value drawn
/// lies in the range. The call panics on an empty range, which the
/// precondition excludes. Which value comes out is left open, so two draws
/// from the same range may differ.
#[verifier::external_body]
pub(crate) fn draw_in_range(rng: &mut ThreadRng, low: u64, high: u64) -> (v: u64)
    requires
        low < high,
    ensures
        low <= v < high,
{
    rand::Rng::gen_range(rng, low..high)
}

} // verus!
