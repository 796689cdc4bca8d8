//! A Merkle Patricia Trie layer over an ordered key-value store: nibble-path
//! keys, cursors over the account trie and over per-account storage tries
//! (with their duplicate-key grouping by hashed address), prefix sets
//! describing which subtrees a block range touched, incremental state-root
//! and storage-root computation with resumable checkpoints, Merkle proof
//! collection, and a recovery sweep for orphaned storage tries.

pub mod nibbles;
pub mod node;
pub mod store;
pub mod hashed;
pub mod trie_cursor;
pub mod hash;
pub mod prefix_set;
pub mod root;
pub mod trie;
pub mod state_root;
pub mod storage_root;
pub mod recover;
pub mod merkle_proof;

pub use nibbles::Nibbles;
pub use node::{B256, BranchNodeCompact, StorageTrieEntry, TrieKey};
pub use store::{AccountsTrieTable, StoragesTrieTable, DatabaseError};
pub use hashed::{HashedAccountsTable, HashedStoragesTable};
pub use trie_cursor::{
    DbTxRefWrapper, DatabaseAccountTrieCursor, DatabaseStorageTrieCursor,
    DatabaseStoragesTrieCursor,
};
pub use prefix_set::{PrefixSet, TriePrefixSets, PrefixSetLoader, AccountChange, StorageChange};
pub use root::TrieUpdates;
pub use trie::{StateRoot, StorageRoot, StateRootError, StateRootProgress};
pub use recover::RecoveryError;
