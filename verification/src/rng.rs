//! The one source of randomness: uniform draws used to shuffle preference
//! orders at initialization.

use vstd::prelude::*;

verus! {

/// Declares rand::rngs::ThreadRng, the opaque handle to the thread-local
/// generator, so that it can be passed between the wrappers below.
#[verifier::external_type_specification]
#[verifier::external_body]
pub struct ExThreadRng(rand::rngs::ThreadRng);

/// Relies on rand::thread_rng: yields a handle to the thread-local random
/// number generator.
#[verifier::external_body]
pub(crate) fn fresh_rng() -> rand::rngs::ThreadRng {
    rand::thread_rng()
}

/// Relies on rand::Rng::gen_range on the half-open range `lo..hi` of usize:
/// the result always lies in that range, and the call panics only on an empty
/// range, which the precondition rules out. Nothing more is assumed of a
/// random draw.
#[verifier::external_body]
pub(crate) fn random_below(rng: &mut rand::rngs::ThreadRng, lo: usize, hi: usize) -> (r: usize)
    requires
        lo < hi,
    ensures
        lo <= r < hi,
{
    rand::Rng::gen_range(rng, lo..hi)
}

} // verus!
