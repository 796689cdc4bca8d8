//! Trie node values: 32-byte hashes, compact branch nodes with their mask
//! invariants, storage-trie entries, and the discriminated trie key.

use vstd::prelude::*;
use crate::nibbles::{Nibbles, nibbles_valid, bytes_eq, bytes_lt, lex_lt};

verus! {

/// A 32-byte hash value (a keccak-256 digest).
#[derive(Debug)]
pub struct B256 {
    pub bytes: Vec<u8>,
}

impl View for B256 {
    type V = Seq<u8>;

    open spec fn view(&self) -> Seq<u8> {
        self.bytes@
    }
}

impl Clone for B256 {
    fn clone(&self) -> (r: Self)
        ensures
            r@ == self@,
    {
        B256 { bytes: self.bytes.clone() }
    }
}

impl B256 {
    /// Well-formedness: exactly 32 bytes.
    pub open spec fn wf(&self) -> bool {
        self@.len() == 32
    }

    /// Build a hash value from its 32 raw bytes.
    pub fn from_vec(bytes: Vec<u8>) -> (r: B256)
        requires
            bytes@.len() == 32,
        ensures
            r@ == bytes@,
            r.wf(),
    {
        B256 { bytes }
    }
}

/// Exact equality of two hash values.
pub fn b256_eq(a: &B256, b: &B256) -> (r: bool)
    ensures
        r == (a@ == b@),
{
    bytes_eq(&a.bytes, &b.bytes)
}

/// Lexicographic byte order over hash values; on 32-byte values this is the
/// numeric big-endian order the store uses for outer keys.
pub fn b256_lt(a: &B256, b: &B256) -> (r: bool)
    ensures
        r == lex_lt(a@, b@),
{
    bytes_lt(&a.bytes, &b.bytes)
}

/// Logical equality of two branch nodes: same masks, same hashes, same
/// recorded root hash.
pub open spec fn node_matches(a: BranchNodeCompact, b: BranchNodeCompact) -> bool {
    &&& a.state_mask == b.state_mask
    &&& a.tree_mask == b.tree_mask
    &&& a.hash_mask == b.hash_mask
    &&& a.hashes@.len() == b.hashes@.len()
    &&& forall|i: int| 0 <= i < a.hashes@.len() ==> (#[trigger] a.hashes@[i])@ == b.hashes@[i]@
    &&& (a.root_hash is Some <==> b.root_hash is Some)
    &&& (a.root_hash is Some ==> a.root_hash->0@ == b.root_hash->0@)
}

/// Number of set bits in the low `n` bits of `m`.
pub open spec fn count_ones(m: int, n: nat) -> nat
    decreases n,
{
    if n == 0 {
        0
    } else {
        (m % 2) as nat + count_ones(m / 2, (n - 1) as nat)
    }
}

/// `sub`'s set bits are among `sup`'s.
pub open spec fn mask_subset(sub: u16, sup: u16) -> bool {
    sub & sup == sub
}

/// A trie-internal branch node in compact stored form: which of the 16
/// possible children exist, which are stored as separate nodes, which are
/// hashes of leaf values, the stored child hashes in child order, and the
/// node's own hash when it stands for a subtree root.
#[derive(Debug)]
pub struct BranchNodeCompact {
    /// Mask of the children that exist.
    pub state_mask: u16,
    /// Mask of the existing children stored as separate nodes.
    pub tree_mask: u16,
    /// Mask of the existing children carried here by hash.
    pub hash_mask: u16,
    /// One hash for each bit set in `hash_mask`, in child order.
    pub hashes: Vec<B256>,
    /// Hash of this node itself, when recorded.
    pub root_hash: Option<B256>,
}

impl Clone for BranchNodeCompact {
    fn clone(&self) -> (r: Self)
        ensures
            node_matches(r, *self),
            self.wf() ==> r.wf(),
    {
        let mut hashes: Vec<B256> = Vec::new();
        let mut i: usize = 0;
        while i < self.hashes.len()
            invariant
                i <= self.hashes@.len(),
                hashes@.len() == i,
                forall|j: int| 0 <= j < i ==> hashes@[j]@ == self.hashes@[j]@,
                forall|j: int| 0 <= j < i ==> hashes@[j].wf() == self.hashes@[j].wf(),
            decreases self.hashes@.len() - i,
        {
            hashes.push(self.hashes[i].clone());
            i += 1;
        }
        let root_hash = match &self.root_hash {
            Some(h) => Some(h.clone()),
            None => None,
        };
        let r = BranchNodeCompact {
            state_mask: self.state_mask,
            tree_mask: self.tree_mask,
            hash_mask: self.hash_mask,
            hashes,
            root_hash,
        };
        proof {
            if self.wf() {
                assert forall|j: int| 0 <= j < r.hashes@.len() implies
                    (#[trigger] r.hashes@[j]).wf() by {
                    assert(self.hashes@[j].wf());
                }
            }
        }
        r
    }
}

impl BranchNodeCompact {
    /// Mask invariants: tree and hash masks cover only existing children,
    /// and there is exactly one stored hash per `hash_mask` bit, each a
    /// well-formed 32-byte value, as is the root hash when present.
    pub open spec fn wf(&self) -> bool {
        &&& mask_subset(self.tree_mask, self.state_mask)
        &&& mask_subset(self.hash_mask, self.state_mask)
        &&& self.hashes@.len() == count_ones(self.hash_mask as int, 16)
        &&& forall|i: int| 0 <= i < self.hashes@.len() ==> (#[trigger] self.hashes@[i]).wf()
        &&& self.root_hash is Some ==> self.root_hash->0.wf()
    }

    /// Build a branch node from its parts.
    pub fn new(
        state_mask: u16,
        tree_mask: u16,
        hash_mask: u16,
        hashes: Vec<B256>,
        root_hash: Option<B256>,
    ) -> (r: BranchNodeCompact)
        requires
            mask_subset(tree_mask, state_mask),
            mask_subset(hash_mask, state_mask),
            hashes@.len() == count_ones(hash_mask as int, 16),
            forall|i: int| 0 <= i < hashes@.len() ==> (#[trigger] hashes@[i]).wf(),
            root_hash is Some ==> root_hash->0.wf(),
        ensures
            r.state_mask == state_mask,
            r.tree_mask == tree_mask,
            r.hash_mask == hash_mask,
            r.hashes == hashes,
            r.root_hash == root_hash,
            r.wf(),
    {
        BranchNodeCompact { state_mask, tree_mask, hash_mask, hashes, root_hash }
    }
}

/// One row of the storage-trie table: the nibble sub-key under an account,
/// and the node stored there.
#[derive(Debug)]
pub struct StorageTrieEntry {
    /// Sub-key: path of the node inside the account's storage trie.
    pub nibbles: Nibbles,
    /// The stored node.
    pub node: BranchNodeCompact,
}

impl Clone for StorageTrieEntry {
    fn clone(&self) -> (r: Self)
        ensures
            r.nibbles@ == self.nibbles@,
            node_matches(r.node, self.node),
            self.wf() ==> r.wf(),
    {
        StorageTrieEntry { nibbles: self.nibbles.clone(), node: self.node.clone() }
    }
}

impl StorageTrieEntry {
    /// Well-formedness of both parts.
    pub open spec fn wf(&self) -> bool {
        nibbles_valid(self.nibbles@) && self.node.wf()
    }
}

/// Identity of a stored trie node: account-trie nodes are keyed by nibble
/// path alone; storage-trie nodes by owning account hash, then nibble path.
#[derive(Debug)]
pub enum TrieKey {
    /// A node of the account trie.
    AccountNode(Nibbles),
    /// A node of one account's storage trie.
    StorageNode(B256, Nibbles),
}

} // verus!
