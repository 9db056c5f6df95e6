//! Plain values that the pallet's logic reads: accounts and byte strings.
use crate::table::TableKey;
use vstd::prelude::*;

verus! {

/// An account, named by a number, together with the `u64` that the pallet's
/// hotkey hash gives for it (the value that decides when a hotkey is drained).
#[derive(Clone, Copy, PartialEq, Eq, Debug)]
pub struct AccountId {
    pub id: u64,
    pub hash: u64,
}

impl AccountId {
    /// The account that a `ValueQuery` storage item answers for an absent key.
    pub fn zero() -> (a: AccountId)
        ensures
            a == (AccountId { id: 0, hash: 0 }),
    {
        AccountId { id: 0, hash: 0 }
    }
}

impl TableKey for AccountId {
    fn same(&self, other: &Self) -> (r: bool) {
        self.id == other.id && self.hash == other.hash
    }
}

impl TableKey for (AccountId, u16) {
    fn same(&self, other: &Self) -> (r: bool) {
        self.0.same(&other.0) && self.1 == other.1
    }
}

impl TableKey for (AccountId, AccountId, u16) {
    fn same(&self, other: &Self) -> (r: bool) {
        self.0.same(&other.0) && self.1.same(&other.1) && self.2 == other.2
    }
}

impl TableKey for (u16, u16) {
    fn same(&self, other: &Self) -> (r: bool) {
        self.0 == other.0 && self.1 == other.1
    }
}

/// A byte string, as the node hands it around.
#[derive(Clone, PartialEq, Eq, Debug)]
pub struct TensorBytes(pub Vec<u8>);

impl TensorBytes {
    /// The bytes.
    pub fn as_ref(&self) -> (r: &[u8])
        ensures
            r@ == self.0@,
    {
        self.0.as_slice()
    }

    /// The bytes.
    pub fn as_bytes_ref(&self) -> (r: &[u8])
        ensures
            r@ == self.0@,
    {
        self.0.as_slice()
    }
}

impl From<Vec<u8>> for TensorBytes {
    fn from(bytes: Vec<u8>) -> (r: TensorBytes) {
        TensorBytes(bytes)
    }
}

impl vstd::std_specs::convert::FromSpecImpl<Vec<u8>> for TensorBytes {
    open spec fn obeys_from_spec() -> bool {
        true
    }

    open spec fn from_spec(bytes: Vec<u8>) -> TensorBytes {
        TensorBytes(bytes)
    }
}

} // verus!
