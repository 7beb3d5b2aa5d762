//! Identifiers of inventories, items, units and users.

use vstd::prelude::*;

verus! {

/// A 128-bit identifier, compared by value.
#[derive(Clone, Copy, Debug, PartialEq, Eq, Hash, Structural)]
pub struct Id {
    pub value: u128,
}

impl Id {
    /// The identifier with the given 128 bits.
    pub fn from_u128(value: u128) -> (id: Id)
        ensures
            id.value == value,
    {
        Id { value }
    }

    /// The 128 bits of the identifier.
    pub fn as_u128(&self) -> (value: u128)
        ensures
            value == self.value,
    {
        self.value
    }
}

/// Draws a fresh version-4 identifier from `uuid::Uuid::new_v4` and keeps its
/// 128 bits. The bits are random, so nothing is claimed of them. The random
/// source of the system is taken to answer.
#[verifier::external_body]
pub(crate) fn random_id() -> Id {
    Id { value: uuid::Uuid::new_v4().as_u128() }
}

} // verus!
