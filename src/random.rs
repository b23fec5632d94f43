//! Random draws: initial sequence numbers and retransmission jitter.
use rand::Rng;
use vstd::prelude::*;

verus! {

/// Relies on rand's `thread_rng().gen::<u32>()`: a `u32` drawn at random,
/// of which nothing can be promised.
#[verifier::external_body]
pub(crate) fn random_u32() -> (r: u32) {
    rand::thread_rng().gen::<u32>()
}

/// Relies on rand's `Rng::gen_range(0..bound)`: a value below `bound`
/// (it panics on an empty range, which `bound > 0` rules out).
#[verifier::external_body]
pub(crate) fn random_below(bound: u64) -> (r: u64)
    requires
        bound > 0,
    ensures
        r < bound,
{
    rand::thread_rng().gen_range(0..bound)
}

} // verus!
