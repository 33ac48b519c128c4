use vstd::prelude::*;
use rand::rngs::ThreadRng;

verus! {

/// Declares `rand::rngs::ThreadRng`, the handle to a thread's own random
/// number generator, as a type whose inside is not looked into.
#[verifier::external_type_specification]
#[verifier::external_body]
pub struct ExThreadRng(ThreadRng);

/// `rand::thread_rng`: the handle to the calling thread's generator. Nothing
/// is claimed of it.
pub assume_specification[ rand::thread_rng ]() -> (rng: ThreadRng)
;

/// Draws a 16-bit number with `rand::Rng::gen`. Every value of the type may
/// come out, and nothing more is claimed.
#[verifier::external_body]
pub(crate) fn draw(rng: &mut ThreadRng) -> (number: u16) {
    rand::Rng::gen(rng)
}

} // verus!
