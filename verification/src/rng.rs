//! Random numbers, drawn from the `rand` crate.
//!
//! Nothing here is proved: these items state what `rand` is taken to do.

use rand::Rng;
use vstd::prelude::*;

verus! {

/// `rand::ThreadRng`, the generator that a thread keeps for itself. Its
/// state is hidden.
#[verifier::external_type_specification]
#[verifier::external_body]
pub struct ExThreadRng(rand::ThreadRng);

/// `rand::thread_rng` hands out the calling thread's generator. Nothing is
/// claimed of the generator it returns. It panics where the system offers
/// no entropy at all.
pub assume_specification[ rand::thread_rng ]() -> (rng: rand::ThreadRng);

/// `Rng::gen_range` on bytes: a value in the half-open range from `low` to
/// `high`. The claim is the range and nothing more; which value comes is
/// up to chance. The call panics unless `low < high`.
#[verifier::external_body]
pub(crate) fn gen_range(rng: &mut rand::ThreadRng, low: u8, high: u8) -> (value: u8)
    requires
        low < high,
    ensures
        low <= value < high,
{
    rng.gen_range(low, high)
}

} // verus!
