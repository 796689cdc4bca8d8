//! Entry points for storage-root computation: one calculator per account,
//! built from a raw address (hashed here) or from an already-hashed one.

use vstd::prelude::*;
use crate::node::B256;
use crate::hash::{keccak_of, keccak256};
use crate::trie_cursor::DbTxRefWrapper;
use crate::trie::StorageRoot;

verus! {

/// Create a storage-root calculator from a raw account address: the
/// address is hashed to the trie's key.
pub fn from_tx(tx: &DbTxRefWrapper, address: &Vec<u8>) -> (r: StorageRoot)
    ensures
        r.hashed_address@ == keccak_of(address@),
        r.hashed_address.wf(),
{
    StorageRoot { hashed_address: keccak256(address) }
}

/// Create a storage-root calculator from an already-hashed address,
/// avoiding a redundant hash when the caller has it.
pub fn from_tx_hashed(tx: &DbTxRefWrapper, hashed_address: B256) -> (r: StorageRoot)
    ensures
        r.hashed_address@ == hashed_address@,
{
    StorageRoot { hashed_address }
}

} // verus!
