//! Player identifiers.

use vstd::prelude::*;

verus! {

/// Identifies one participant. Within a room no two players share an identifier.
#[derive(Clone, Copy, Debug, PartialEq, Eq, Structural, Hash)]
pub struct PlayerId {
    pub value: u128,
}

impl PlayerId {
    /// The identifier with the given 128-bit value.
    pub fn from_u128(value: u128) -> (id: PlayerId)
        ensures
            id.value == value,
    {
        PlayerId { value }
    }

    /// The 128-bit value of this identifier.
    pub fn as_u128(&self) -> (value: u128)
        ensures
            value == self.value,
    {
        self.value
    }

    /// Whether the version and variant fields mark this identifier as a
    /// randomly generated one.
    pub open spec fn is_random_form(self) -> bool {
        self.value & 0x0000_0000_0000_f000_c000_0000_0000_0000u128
            == 0x0000_0000_0000_4000_8000_0000_0000_0000u128
    }

    /// Mints an identifier from the operating system's random source.
    ///
    /// Trusted: calls `uuid::Uuid::new_v4` and packs its bytes with
    /// `uuid::Uuid::as_u128`. The value is random; the contract claims only
    /// what `new_v4` fixes in every outcome, the version and variant bits.
    #[verifier::external_body]
    pub(crate) fn mint() -> (id: PlayerId)
        ensures
            id.is_random_form(),
    {
        PlayerId { value: uuid::Uuid::new_v4().as_u128() }
    }
}

} // verus!
