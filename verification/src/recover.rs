//! Storage-trie recovery: sweep the storage-trie table for groups whose
//! owning account no longer exists in hashed state, delete them, and verify
//! that the resulting state root matches an expected value before anything
//! is committed.

use vstd::prelude::*;
use crate::node::{B256, b256_eq};
use crate::store::{StoragesTrieTable, dup_lookup, lemma_dup_lookup_absent_outer};
use crate::hashed::{HashedAccountsTable, ha_lookup};
use crate::trie_cursor::DbTxRefWrapper;
use crate::root::{trie_fully_ok, lemma_fully_ok_any_prefix};
use crate::trie::{state_root_of, account_leaves_spec};
use crate::state_root;

verus! {

/// A failure of the recovery flow.
#[derive(Debug)]
pub enum RecoveryError {
    /// The recomputed state root does not match the expected one; both
    /// values are reported and nothing must be committed.
    RootMismatch {
        /// The root the caller expected.
        expected: B256,
        /// The root that was computed.
        got: B256,
    },
    /// The storage engine failed during the root computation; propagated,
    /// never retried. The in-memory engine cannot fail, so this is proved
    /// unreachable here, but a caller must still treat it as fatal.
    Database(crate::store::DatabaseError),
}

/// Position of some storage-trie row whose owning account is missing from
/// the hashed-accounts table, if one exists.
fn find_orphaned_group(storages: &StoragesTrieTable, accounts: &HashedAccountsTable) -> (r:
    Option<usize>)
    requires
        storages.wf(),
        accounts.wf(),
    ensures
        r is Some ==> r->0 < storages@.len() && ha_lookup(
            accounts@,
            storages@[r->0 as int].0@,
        ) is None,
        r is None ==> forall|i: int|
            0 <= i < storages@.len() ==> ha_lookup(
                accounts@,
                (#[trigger] storages@[i]).0@,
            ) is Some,
{
    let n = storages.len();
    let mut i: usize = 0;
    while i < n
        invariant
            i <= n,
            n == storages@.len(),
            storages.wf(),
            accounts.wf(),
            forall|j: int|
                0 <= j < i ==> ha_lookup(accounts@, (#[trigger] storages@[j]).0@) is Some,
        decreases n - i,
    {
        if !accounts.contains(&storages.entries[i].0) {
            return Some(i);
        }
        i += 1;
    }
    None
}

/// Delete every storage-trie group whose owning account is missing from
/// hashed state. Groups of accounts that still exist keep every binding;
/// groups of missing accounts lose all of theirs.
pub fn sweep_orphaned_storage_tries(
    storages: &mut StoragesTrieTable,
    accounts: &HashedAccountsTable,
)
    requires
        old(storages).wf(),
        accounts.wf(),
    ensures
        final(storages).wf(),
        forall|a2: Seq<u8>, s2: Seq<u8>|
            ha_lookup(accounts@, a2) is Some ==> dup_lookup(final(storages)@, a2, s2)
                == dup_lookup(old(storages)@, a2, s2),
        forall|a2: Seq<u8>, s2: Seq<u8>|
            ha_lookup(accounts@, a2) is None ==> #[trigger] dup_lookup(
                final(storages)@,
                a2,
                s2,
            ) is None,
{
    let ghost orig = storages@;
    let mut go = true;
    while go
        invariant
            storages.wf(),
            accounts.wf(),
            forall|a2: Seq<u8>, s2: Seq<u8>|
                ha_lookup(accounts@, a2) is Some ==> dup_lookup(storages@, a2, s2)
                    == dup_lookup(orig, a2, s2),
            !go ==> forall|i: int|
                0 <= i < storages@.len() ==> ha_lookup(
                    accounts@,
                    (#[trigger] storages@[i]).0@,
                ) is Some,
        decreases storages@.len(), (if go { 1int } else { 0int }),
    {
        let found = find_orphaned_group(storages, accounts);
        match found {
            None => {
                go = false;
            },
            Some(i) => {
                let outer = storages.get(i).0;
                proof {
                    assert(storages@[i as int].0@ == outer@);
                }
                storages.delete_group(&outer);
            },
        }
    }
    proof {
        assert forall|a2: Seq<u8>, s2: Seq<u8>|
            ha_lookup(accounts@, a2) is None implies #[trigger] dup_lookup(
            storages@,
            a2,
            s2,
        ) is None by {
            assert forall|i: int| 0 <= i < storages@.len() implies
                (#[trigger] storages@[i].0)@ != a2 by {
                if storages@[i].0@ == a2 {
                    assert(ha_lookup(accounts@, storages@[i].0@) is Some);
                }
            }
            lemma_dup_lookup_absent_outer(storages@, a2);
        }
    }
}

/// The recovery flow: sweep orphaned storage-trie groups, recompute the
/// state root from the transaction, and compare it against the expected
/// value. On a mismatch both hashes are reported and the caller must not
/// commit the transaction.
pub fn recover_storage_tries(tx: &mut DbTxRefWrapper, expected_root: &B256) -> (r: Result<
    (),
    RecoveryError,
>)
    requires
        old(tx).wf(),
    ensures
        final(tx).wf(),
        final(tx).hashed_accounts@ == old(tx).hashed_accounts@,
        final(tx).hashed_storages@ == old(tx).hashed_storages@,
        final(tx).accounts_trie@ == old(tx).accounts_trie@,
        forall|a2: Seq<u8>, s2: Seq<u8>|
            ha_lookup(old(tx).hashed_accounts@, a2) is Some ==> dup_lookup(
                final(tx).storages_trie@,
                a2,
                s2,
            ) == dup_lookup(old(tx).storages_trie@, a2, s2),
        forall|a2: Seq<u8>, s2: Seq<u8>|
            ha_lookup(old(tx).hashed_accounts@, a2) is None ==> #[trigger] dup_lookup(
                final(tx).storages_trie@,
                a2,
                s2,
            ) is None,
        r is Err ==> (r->Err_0 matches RecoveryError::RootMismatch { expected, got }
            && expected@ == expected_root@),
        (trie_fully_ok(
            old(tx).accounts_trie@,
            account_leaves_spec(old(tx).hashed_accounts@, old(tx).hashed_storages@),
        ) && r is Err) ==> (r->Err_0 matches RecoveryError::RootMismatch { expected, got }
            && got@ == state_root_of(old(tx).hashed_accounts@, old(tx).hashed_storages@)),
        trie_fully_ok(
            old(tx).accounts_trie@,
            account_leaves_spec(old(tx).hashed_accounts@, old(tx).hashed_storages@),
        ) ==> (r is Ok <==> expected_root@ == state_root_of(
            old(tx).hashed_accounts@,
            old(tx).hashed_storages@,
        )),
{
    sweep_orphaned_storage_tries(&mut tx.storages_trie, &tx.hashed_accounts);
    let calculator = state_root::from_tx(tx);
    proof {
        if trie_fully_ok(
            tx.accounts_trie@,
            account_leaves_spec(tx.hashed_accounts@, tx.hashed_storages@),
        ) {
            lemma_fully_ok_any_prefix(
                tx.accounts_trie@,
                account_leaves_spec(tx.hashed_accounts@, tx.hashed_storages@),
                calculator.prefix_sets.account_prefix_set,
            );
        }
    }
    let got = match calculator.root(tx) {
        Ok(h) => h,
        Err(crate::trie::StateRootError::Database(e)) => {
            // the computation's own contract rules this arm out; were the
            // engine fallible, the error would abort the flow uncommitted
            return Err(RecoveryError::Database(e));
        },
    };
    if b256_eq(&got, expected_root) {
        Ok(())
    } else {
        Err(RecoveryError::RootMismatch { expected: expected_root.clone(), got })
    }
}

} // verus!
