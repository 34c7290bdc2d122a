//! The random source that the roll engine draws from.

use vstd::prelude::*;

verus! {

#[verifier::external_type_specification]
#[verifier::external_body]
pub struct ExStdRng(rand::rngs::StdRng);

/// Relies on `rand::Rng::gen::<u16>` on a `StdRng`: it returns a drawn `u16`
/// and advances the generator; nothing is promised of which value comes out.
#[verifier::external_body]
pub(crate) fn draw_u16(rng: &mut rand::rngs::StdRng) -> (r: u16) {
    rand::Rng::gen::<u16>(rng)
}

} // verus!
