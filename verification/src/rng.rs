use vstd::prelude::*;

verus! {

/// Relies on rand::random: draws one byte from the thread-local generator,
/// uniformly over 0..=255. Nothing can be promised of the value.
#[verifier::external_body]
pub(crate) fn random_byte() -> u8 {
    rand::random::<u8>()
}

} // verus!
