//! Identities of accounts and contracts.

use vstd::prelude::*;

verus! {

/// The identity of an account or of a contract: a 256-bit key, held as two
/// halves, and a flag that tells the two kinds of key apart.
#[derive(Clone, Copy, Debug, PartialEq, Eq, Structural, Hash)]
pub struct Address {
    pub contract: bool,
    pub hi: u128,
    pub lo: u128,
}

impl Address {
    /// The account whose key is `id`.
    pub fn account(id: u128) -> (address: Address)
        ensures
            address == (Address { contract: false, hi: 0, lo: id }),
    {
        Address { contract: false, hi: 0, lo: id }
    }

    /// The contract whose key is `id`.
    pub fn contract(id: u128) -> (address: Address)
        ensures
            address == (Address { contract: true, hi: 0, lo: id }),
    {
        Address { contract: true, hi: 0, lo: id }
    }
}

} // verus!
