//! The source of randomness used to pick a hidden word and to pick guesses.
//! Nothing is assumed about which value comes back, only that a picked index
//! is in bounds.
use vstd::prelude::*;

verus! {

#[verifier::external_type_specification]
#[verifier::external_body]
pub struct ExThreadRng(rand::rngs::ThreadRng);

/// Relies on rand::thread_rng: it returns a handle to the thread-local
/// generator. Nothing is promised of the values it will yield.
#[verifier::external_body]
pub(crate) fn new_rng() -> rand::rngs::ThreadRng {
    rand::thread_rng()
}

/// Relies on rand::Rng::gen_range: on the range `0..n` it returns a value of
/// that range, and panics only when the range is empty, which the
/// precondition rules out.
#[verifier::external_body]
pub(crate) fn pick_index(rng: &mut rand::rngs::ThreadRng, n: usize) -> (i: usize)
    requires
        n >= 1,
    ensures
        i < n,
{
    rand::Rng::gen_range(rng, 0..n)
}

} // verus!
