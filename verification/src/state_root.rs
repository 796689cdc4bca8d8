//! Entry points for state-root computation over one transaction: a
//! from-scratch calculator, and incremental calculators scoped to the
//! prefixes a block range changed.

use vstd::prelude::*;
use crate::node::B256;
use crate::hash::{keccak_of, unpack_spec};
use crate::trie_cursor::DbTxRefWrapper;
use crate::store::acct_lookup;
use crate::nibbles::Nibbles;
use crate::node::BranchNodeCompact;
use crate::prefix_set::{TriePrefixSets, PrefixSetLoader, PrefixSet, storage_covered,
    storage_marked_all, sets_only_from_changes, account_path_changed, AccountChange,
    StorageChange};
use crate::root::{trie_ok, subtree_root, prefix_filter, update_valid, update_ok, TrieUpdates,
    records_path};
use crate::trie::{
    StateRoot, StateRootError, StateRootProgress, state_root_of, account_leaves_spec,
    progress_updates_valid, progress_consistent,
};

verus! {

/// The default leaf-visit budget of one thresholded walk.
pub const DEFAULT_INTERMEDIATE_THRESHOLD: u64 = 100_000;

/// The stored account-trie nodes agree with the leaf set at every path
/// that does not cover an account the range touched. This is what holding
/// nodes consistent with the pre-range state gives once the range's
/// changes are recorded: outside the changed accounts' paths the state did
/// not move, so pre-range agreement is agreement with the final state.
pub open spec fn trie_ok_outside_changes(
    ts: Seq<(Nibbles, BranchNodeCompact)>,
    full: Seq<(Seq<u8>, Seq<u8>)>,
    achanges: Seq<AccountChange>,
    schanges: Seq<StorageChange>,
    from: u64,
    to: u64,
) -> bool {
    forall|k: Seq<u8>|
        {
            let node = #[trigger] acct_lookup(ts, k);
            node is Some && node->0.root_hash is Some && k.len() <= 64 && !(exists|k2: Seq<u8>|
                #[trigger] account_path_changed(k2, achanges, schanges, from, to)
                    && k.is_prefix_of(k2)) ==> node->0.root_hash->0@ == subtree_root(
                prefix_filter(full, k),
                k.len(),
            )
        }
}

/// A prefix set that covers every changed account path turns agreement
/// outside the changes into agreement outside the set: a walk guided by
/// such a set reuses only nodes whose hashes are still right.
pub proof fn lemma_outside_changes_ok(
    ts: Seq<(Nibbles, BranchNodeCompact)>,
    full: Seq<(Seq<u8>, Seq<u8>)>,
    pfx: PrefixSet,
    achanges: Seq<AccountChange>,
    schanges: Seq<StorageChange>,
    from: u64,
    to: u64,
)
    requires
        trie_ok_outside_changes(ts, full, achanges, schanges, from, to),
        forall|k: Seq<u8>|
            account_path_changed(k, achanges, schanges, from, to) ==> #[trigger] pfx.has_key(k),
    ensures
        trie_ok(ts, full, pfx),
{
    assert forall|k: Seq<u8>|
        {
            let node = #[trigger] acct_lookup(ts, k);
            node is Some && node->0.root_hash is Some && !pfx.contains_spec(k) && k.len() <= 64
                ==> node->0.root_hash->0@ == subtree_root(prefix_filter(full, k), k.len())
        } by {
        let node = acct_lookup(ts, k);
        if node is Some && node->0.root_hash is Some && !pfx.contains_spec(k) && k.len()
            <= 64 {
            if exists|k2: Seq<u8>|
                #[trigger] account_path_changed(k2, achanges, schanges, from, to)
                    && k.is_prefix_of(k2) {
                let k2 = choose|k2: Seq<u8>|
                    #[trigger] account_path_changed(k2, achanges, schanges, from, to)
                        && k.is_prefix_of(k2);
                assert(pfx.has_key(k2));
                let i = choose|i: int|
                    0 <= i < pfx.keys@.len() && (#[trigger] pfx.keys@[i])@ == k2;
                assert(k.is_prefix_of((pfx.keys@[i])@));
                assert(pfx.contains_spec(k));
            }
        }
    }
}

/// Create a new state-root calculator over the transaction: empty prefix
/// sets, default threshold.
pub fn from_tx(tx: &DbTxRefWrapper) -> (r: StateRoot)
    ensures
        r.threshold == DEFAULT_INTERMEDIATE_THRESHOLD,
        !r.prefix_sets.account_prefix_set.all,
        r.prefix_sets.account_prefix_set.keys@.len() == 0,
        r.prefix_sets.storage_prefix_sets@.len() == 0,
{
    StateRoot { prefix_sets: TriePrefixSets::empty(), threshold: DEFAULT_INTERMEDIATE_THRESHOLD }
        .with_threshold(DEFAULT_INTERMEDIATE_THRESHOLD)
        .with_prefix_sets(TriePrefixSets::empty())
}

/// Given a block range, identify every account and storage key changed in
/// it and return a calculator loaded with those prefixes.
pub fn incremental_root_calculator(tx: &DbTxRefWrapper, from: u64, to: u64) -> (r: Result<
    StateRoot,
    StateRootError,
>)
    ensures
        r is Ok,
        r->Ok_0.threshold == DEFAULT_INTERMEDIATE_THRESHOLD,
        !r->Ok_0.prefix_sets.account_prefix_set.all,
        forall|k: Seq<u8>|
            account_path_changed(k, tx.account_changes@, tx.storage_changes@, from, to)
                ==> #[trigger] r->Ok_0.prefix_sets.account_prefix_set.has_key(k),
        forall|k: Seq<u8>|
            #[trigger] r->Ok_0.prefix_sets.account_prefix_set.has_key(k)
                ==> account_path_changed(
                k,
                tx.account_changes@,
                tx.storage_changes@,
                from,
                to,
            ),
        forall|c: int|
            0 <= c < tx.storage_changes@.len() && from <= (#[trigger] tx.storage_changes@[
                c
            ]).block <= to ==> storage_covered(
                r->Ok_0.prefix_sets.storage_prefix_sets@,
                keccak_of(tx.storage_changes@[c].address@),
                unpack_spec(keccak_of(tx.storage_changes@[c].slot@)),
            ),
        forall|c: int|
            0 <= c < tx.account_changes@.len() && from <= (#[trigger] tx.account_changes@[
                c
            ]).block <= to && tx.account_changes@[c].created ==> storage_marked_all(
                r->Ok_0.prefix_sets.storage_prefix_sets@,
                keccak_of(tx.account_changes@[c].address@),
            ),
        sets_only_from_changes(
            r->Ok_0.prefix_sets.storage_prefix_sets@,
            tx.storage_changes@,
            tx.account_changes@,
            from,
            to,
        ),
{
    let loaded = PrefixSetLoader::load(tx, from, to);
    Ok(from_tx(tx).with_prefix_sets(loaded))
}

/// Compute the state root over the prefixes the block range changed.
/// Whenever every stored node outside the changed account paths still
/// agrees with the hashed state - which holding nodes consistent with the
/// pre-range state gives, since only the recorded accounts moved - the
/// result is exactly the state root of the final hashed state, the same
/// value a from-scratch computation returns.
pub fn incremental_root(tx: &DbTxRefWrapper, from: u64, to: u64) -> (r: Result<
    B256,
    StateRootError,
>)
    requires
        tx.wf(),
    ensures
        r is Ok,
        r->Ok_0.wf(),
        trie_ok_outside_changes(
            tx.accounts_trie@,
            account_leaves_spec(tx.hashed_accounts@, tx.hashed_storages@),
            tx.account_changes@,
            tx.storage_changes@,
            from,
            to,
        ) ==> r->Ok_0@ == state_root_of(tx.hashed_accounts@, tx.hashed_storages@),
{
    let calculator = incremental_root_calculator(tx, from, to)?;
    proof {
        if trie_ok_outside_changes(
            tx.accounts_trie@,
            account_leaves_spec(tx.hashed_accounts@, tx.hashed_storages@),
            tx.account_changes@,
            tx.storage_changes@,
            from,
            to,
        ) {
            lemma_outside_changes_ok(
                tx.accounts_trie@,
                account_leaves_spec(tx.hashed_accounts@, tx.hashed_storages@),
                calculator.prefix_sets.account_prefix_set,
                tx.account_changes@,
                tx.storage_changes@,
                from,
                to,
            );
        }
    }
    calculator.root(tx)
}

/// Compute the state root over the changed prefixes, collecting the trie
/// updates of the walk; the result and the collected nodes are right
/// whenever the stored nodes agree with the hashed state outside the
/// changed account paths. The early-exit threshold is ignored: updates
/// are only meaningful for a walk run to completion.
pub fn incremental_root_with_updates(tx: &DbTxRefWrapper, from: u64, to: u64) -> (r: Result<
    (B256, TrieUpdates),
    StateRootError,
>)
    requires
        tx.wf(),
    ensures
        r is Ok,
        (r->Ok_0).0.wf(),
        forall|u: int|
            0 <= u < (r->Ok_0).1.account_nodes@.len() ==> update_valid(
                #[trigger] (r->Ok_0).1.account_nodes@[u],
            ),
        trie_ok_outside_changes(
            tx.accounts_trie@,
            account_leaves_spec(tx.hashed_accounts@, tx.hashed_storages@),
            tx.account_changes@,
            tx.storage_changes@,
            from,
            to,
        ) ==> {
            &&& (r->Ok_0).0@ == state_root_of(tx.hashed_accounts@, tx.hashed_storages@)
            &&& forall|u: int|
                0 <= u < (r->Ok_0).1.account_nodes@.len() ==> update_ok(
                    #[trigger] (r->Ok_0).1.account_nodes@[u],
                    account_leaves_spec(tx.hashed_accounts@, tx.hashed_storages@),
                )
        },
        (account_leaves_spec(tx.hashed_accounts@, tx.hashed_storages@).len() >= 2 && !(
        acct_lookup(tx.accounts_trie@, Seq::<u8>::empty()) is Some && acct_lookup(
            tx.accounts_trie@,
            Seq::<u8>::empty(),
        )->0.root_hash is Some)) ==> records_path(
            (r->Ok_0).1.account_nodes@,
            0,
            Seq::<u8>::empty(),
        ),
{
    let calculator = incremental_root_calculator(tx, from, to)?;
    proof {
        if trie_ok_outside_changes(
            tx.accounts_trie@,
            account_leaves_spec(tx.hashed_accounts@, tx.hashed_storages@),
            tx.account_changes@,
            tx.storage_changes@,
            from,
            to,
        ) {
            lemma_outside_changes_ok(
                tx.accounts_trie@,
                account_leaves_spec(tx.hashed_accounts@, tx.hashed_storages@),
                calculator.prefix_sets.account_prefix_set,
                tx.account_changes@,
                tx.storage_changes@,
                from,
                to,
            );
        }
    }
    calculator.root_with_updates(tx)
}

/// Compute the state root over the changed prefixes under the leaf-visit
/// threshold: either the final root, or a checkpoint to resume from.
pub fn incremental_root_with_progress(tx: &DbTxRefWrapper, from: u64, to: u64) -> (r: Result<
    StateRootProgress,
    StateRootError,
>)
    requires
        tx.wf(),
    ensures
        r is Ok,
        (r->Ok_0 matches StateRootProgress::Intermediate(st) ==> st.next_nibble <= 16
            && st.child_items@.len() == st.next_nibble && progress_updates_valid(st)),
        trie_ok_outside_changes(
            tx.accounts_trie@,
            account_leaves_spec(tx.hashed_accounts@, tx.hashed_storages@),
            tx.account_changes@,
            tx.storage_changes@,
            from,
            to,
        ) ==> match r->Ok_0 {
            StateRootProgress::Complete(h) => h@ == state_root_of(
                tx.hashed_accounts@,
                tx.hashed_storages@,
            ),
            StateRootProgress::Intermediate(st) => progress_consistent(
                st,
                account_leaves_spec(tx.hashed_accounts@, tx.hashed_storages@),
            ),
        },
        (account_leaves_spec(tx.hashed_accounts@, tx.hashed_storages@).len()
            > DEFAULT_INTERMEDIATE_THRESHOLD && account_leaves_spec(
            tx.hashed_accounts@,
            tx.hashed_storages@,
        ).len() >= 2) ==> r->Ok_0 is Intermediate,
        account_leaves_spec(tx.hashed_accounts@, tx.hashed_storages@).len()
            <= DEFAULT_INTERMEDIATE_THRESHOLD ==> r->Ok_0 is Complete,
{
    let calculator = incremental_root_calculator(tx, from, to)?;
    proof {
        if trie_ok_outside_changes(
            tx.accounts_trie@,
            account_leaves_spec(tx.hashed_accounts@, tx.hashed_storages@),
            tx.account_changes@,
            tx.storage_changes@,
            from,
            to,
        ) {
            lemma_outside_changes_ok(
                tx.accounts_trie@,
                account_leaves_spec(tx.hashed_accounts@, tx.hashed_storages@),
                calculator.prefix_sets.account_prefix_set,
                tx.account_changes@,
                tx.storage_changes@,
                from,
                to,
            );
        }
    }
    calculator.root_with_progress(tx)
}

} // verus!
