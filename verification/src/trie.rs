//! State-root and storage-root calculators: the public entry points that
//! merge the hashed state, the stored trie nodes and the prefix sets of a
//! block range into a root hash, optionally collecting trie updates or
//! yielding a resumable checkpoint.

use vstd::prelude::*;
use crate::nibbles::{Nibbles, nibbles_valid};
use crate::node::B256;
use crate::hash::{keccak256, unpack_spec, unpack_key, lemma_unpack_injective};
use crate::store::{DatabaseError, acct_lookup};
use crate::hashed::{HashedStoragesTable, hs_group, hs_group_pred};
use crate::trie_cursor::DbTxRefWrapper;
use crate::prefix_set::TriePrefixSets;

use crate::root::{
    rlp_list_of, byte_views, leaves_wf, subtree_root, leaf_views, compute_subtree,
    compute_subtree_cached, children_encodings, trie_ok, TrieUpdates, update_valid, update_ok,
    prefix_filter, lemma_prefix_filter_empty, lemma_prefix_step, nibble_filter, rlp_encode_pair,
    filter_by_nibble, lemma_filter_subset, rlp_encode_list, count_upto, lemma_count_upto_all,
    records_path,
};

verus! {

/// A failure of a root computation: the storage engine failed beneath it.
#[derive(Debug)]
pub enum StateRootError {
    /// The underlying engine reported an error.
    Database(DatabaseError),
}

/// The storage-trie leaves of account `a`: each stored slot's hashed path
/// and its value bytes.
pub open spec fn storage_leaves_spec(hs: Seq<(B256, B256, Vec<u8>)>, a: Seq<u8>) -> Seq<
    (Seq<u8>, Seq<u8>),
> {
    let g = hs_group(hs, a);
    Seq::new(g.len(), |i: int| (unpack_spec(g[i].1@), g[i].2@))
}

/// The storage root of account `a`: the root of its slot leaves.
pub open spec fn storage_root_of(hs: Seq<(B256, B256, Vec<u8>)>, a: Seq<u8>) -> Seq<u8> {
    subtree_root(storage_leaves_spec(hs, a), 0)
}

/// The account-trie leaves: each account's hashed path, and as value the
/// encoding of its payload with its storage root.
pub open spec fn account_leaves_spec(
    ha: Seq<(B256, Vec<u8>)>,
    hs: Seq<(B256, B256, Vec<u8>)>,
) -> Seq<(Seq<u8>, Seq<u8>)> {
    Seq::new(ha.len(), |i: int| (
        unpack_spec(ha[i].0@),
        rlp_list_of(seq![ha[i].1@, storage_root_of(hs, ha[i].0@)]),
    ))
}

/// The state root of the hashed state: the root of the account leaves.
pub open spec fn state_root_of(ha: Seq<(B256, Vec<u8>)>, hs: Seq<(B256, B256, Vec<u8>)>) -> Seq<
    u8,
> {
    subtree_root(account_leaves_spec(ha, hs), 0)
}

/// Slot rows of one group have pairwise distinct slot keys.
proof fn lemma_group_distinct(hs: Seq<(B256, B256, Vec<u8>)>, a: Seq<u8>)
    requires
        crate::hashed::hs_sorted(hs),
    ensures
        forall|i: int, j: int|
            0 <= i < j < hs_group(hs, a).len() ==> (#[trigger] hs_group(hs, a)[i]).1@
                != (#[trigger] hs_group(hs, a)[j]).1@,
    decreases hs.len(),
{
    reveal(Seq::filter);
    let g = hs_group(hs, a);
    if hs.len() > 0 {
        let d = hs.drop_last();
        assert(crate::hashed::hs_sorted(d)) by {
            assert(forall|i: int| 0 <= i < d.len() ==> #[trigger] d[i] == hs[i]);
        }
        lemma_group_distinct(d, a);
        let pred = hs_group_pred(a);
        let gd = d.filter(pred);
        assert(gd == hs_group(d, a));
        lemma_filter_subset(d, pred);
        if pred(hs.last()) {
            assert(g == gd.push(hs.last()));
            assert forall|i: int, j: int|
                0 <= i < j < g.len() implies (#[trigger] g[i]).1@ != (#[trigger] g[j]).1@ by {
                if j < g.len() - 1 {
                    assert(g[i] == gd[i] && g[j] == gd[j]);
                    assert((hs_group(d, a)[i]).1@ != (hs_group(d, a)[j]).1@);
                } else {
                    assert(g[j] == hs.last());
                    assert(g[i] == gd[i]);
                    assert(d.contains(gd[i]));
                    let w = choose|w: int| 0 <= w < d.len() && d[w] == gd[i];
                    assert(hs[w] == gd[i]);
                    assert(crate::store::dup_lt(hs[w].0@, hs[w].1@, hs[hs.len() - 1].0@,
                        hs[hs.len() - 1].1@));
                    assert(hs.last() == hs[hs.len() - 1]);
                    if g[i].1@ == g[j].1@ {
                        crate::nibbles::lemma_lex_lt_irrefl(g[i].1@);
                        crate::nibbles::lemma_lex_lt_irrefl(a);
                    }
                }
            }
        } else {
            assert(g == gd);
        }
    }
}

/// The storage-trie leaves of account `a`, built from its slot rows.
fn build_storage_leaves(hs: &HashedStoragesTable, a: &B256) -> (r: Vec<(Nibbles, Vec<u8>)>)
    requires
        hs.wf(),
    ensures
        leaf_views(r@) == storage_leaves_spec(hs@, a@),
        leaves_wf(leaf_views(r@)),
{
    let slots = hs.slots_of(a);
    let ghost g = hs_group(hs@, a@);
    let mut out: Vec<(Nibbles, Vec<u8>)> = Vec::new();
    let n = slots.len();
    let mut i: usize = 0;
    while i < n
        invariant
            i <= n,
            n == slots@.len(),
            n == g.len(),
            g == hs_group(hs@, a@),
            forall|j: int|
                0 <= j < n ==> (#[trigger] slots@[j]).0@ == g[j].1@ && slots@[j].1@ == g[j].2@,
            out@.len() == i,
            forall|j: int|
                0 <= j < i ==> (#[trigger] out@[j]).0@ == unpack_spec(g[j].1@) && out@[j].1@
                    == g[j].2@,
        decreases n - i,
    {
        let path = unpack_key(&slots[i].0);
        out.push((path, slots[i].1.clone()));
        i += 1;
    }
    proof {
        assert(leaf_views(out@) =~= storage_leaves_spec(hs@, a@));
        let lv = leaf_views(out@);
        lemma_filter_subset(hs@, hs_group_pred(a@));
        assert forall|j: int|
            0 <= j < lv.len() implies (#[trigger] lv[j]).0.len() == 64 && nibbles_valid(
            lv[j].0,
        ) by {
            assert(hs@.contains(g[j]));
            let w = choose|w: int| 0 <= w < hs@.len() && hs@[w] == g[j];
            assert(hs@[w].1.wf());
            assert(lv[j].0 == unpack_spec(g[j].1@));
            assert forall|x: int| 0 <= x < lv[j].0.len() implies lv[j].0[x] < 16 by {
                assert(lv[j].0[x] == unpack_spec(g[j].1@)[x]);
            }
        }
        lemma_group_distinct(hs@, a@);
        assert forall|x: int, y: int|
            0 <= x < y < lv.len() implies (#[trigger] lv[x]).0 != (#[trigger] lv[y]).0 by {
            if lv[x].0 == lv[y].0 {
                lemma_unpack_injective(g[x].1@, g[y].1@);
            }
        }
    }
    out
}

/// The account-trie leaves of the whole hashed state: one leaf per hashed
/// account, with its storage root folded into the leaf value.
pub fn build_account_leaves(tx: &DbTxRefWrapper) -> (r: Vec<(Nibbles, Vec<u8>)>)
    requires
        tx.wf(),
    ensures
        leaf_views(r@) == account_leaves_spec(tx.hashed_accounts@, tx.hashed_storages@),
        leaves_wf(leaf_views(r@)),
{
    let ghost ha = tx.hashed_accounts@;
    let ghost hs = tx.hashed_storages@;
    let mut out: Vec<(Nibbles, Vec<u8>)> = Vec::new();
    let n = tx.hashed_accounts.len();
    let mut i: usize = 0;
    while i < n
        invariant
            i <= n,
            tx.wf(),
            ha == tx.hashed_accounts@,
            hs == tx.hashed_storages@,
            n == ha.len(),
            out@.len() == i,
            forall|j: int|
                0 <= j < i ==> (#[trigger] out@[j]).0@ == unpack_spec(ha[j].0@) && out@[j].1@
                    == rlp_list_of(seq![ha[j].1@, storage_root_of(hs, ha[j].0@)]),
        decreases n - i,
    {
        let (addr, payload) = tx.hashed_accounts.get(i);
        let sleaves = build_storage_leaves(&tx.hashed_storages, &addr);
        proof {
            assert forall|x: int, y: int|
                0 <= x < leaf_views(sleaves@).len() && 0 <= y < leaf_views(sleaves@).len()
                implies (#[trigger] leaf_views(sleaves@)[x]).0.take(0)
                    == (#[trigger] leaf_views(sleaves@)[y]).0.take(0) by {
                assert(leaf_views(sleaves@)[x].0.take(0) =~= leaf_views(sleaves@)[y].0.take(
                    0));
            }
        }
        let sroot = compute_subtree(&sleaves, 0);
        let value = rlp_encode_pair(&payload, &sroot.bytes);
        let path = unpack_key(&addr);
        proof {
            assert(sroot@ == storage_root_of(hs, ha[i as int].0@));
        }
        out.push((path, value));
        i += 1;
    }
    proof {
        assert(leaf_views(out@) =~= account_leaves_spec(ha, hs));
        let lv = leaf_views(out@);
        assert forall|j: int|
            0 <= j < lv.len() implies (#[trigger] lv[j]).0.len() == 64 && nibbles_valid(
            lv[j].0,
        ) by {
            assert(ha[j].0.wf());
            assert(lv[j].0 == unpack_spec(ha[j].0@));
            assert forall|x: int| 0 <= x < lv[j].0.len() implies lv[j].0[x] < 16 by {
                assert(lv[j].0[x] == unpack_spec(ha[j].0@)[x]);
            }
        }
        assert forall|x: int, y: int|
            0 <= x < y < lv.len() implies (#[trigger] lv[x]).0 != (#[trigger] lv[y]).0 by {
            if lv[x].0 == lv[y].0 {
                lemma_unpack_injective(ha[x].0@, ha[y].0@);
                assert(crate::nibbles::lex_lt(ha[x].0@, ha[y].0@));
                crate::nibbles::lemma_lex_lt_irrefl(ha[x].0@);
            }
        }
    }
    out
}

/// A checkpoint of a suspended state-root walk: the branch items of the
/// account-trie root already finished, the next child nibble to process,
/// the updates accumulated so far, and how many leaves were visited.
#[derive(Debug)]
pub struct IntermediateStateRootState {
    /// The next top-level child to process.
    pub next_nibble: u8,
    /// Branch items of the children already finished, in child order.
    pub child_items: Vec<Vec<u8>>,
    /// Updates accumulated so far.
    pub updates: TrieUpdates,
    /// Leaves visited so far.
    pub visited: u64,
}

/// Outcome of a thresholded state-root walk: the final root, or a
/// checkpoint from which the walk can be resumed.
#[derive(Debug)]
pub enum StateRootProgress {
    /// The walk ran to completion.
    Complete(B256),
    /// The walk was suspended; resume it with the carried state.
    Intermediate(IntermediateStateRootState),
}

/// The checkpoint matches the leaf set: its items are exactly the branch
/// items of the children before `next_nibble`.
pub open spec fn progress_consistent(
    st: IntermediateStateRootState,
    full: Seq<(Seq<u8>, Seq<u8>)>,
) -> bool {
    &&& st.next_nibble <= 16
    &&& st.child_items@.len() == st.next_nibble
    &&& full.len() >= 2
    &&& byte_views(st.child_items@) + children_encodings(full, 0, st.next_nibble as nat)
        == children_encodings(full, 0, 0)
}

/// Every update entry of the checkpoint is a valid account-trie row.
pub open spec fn progress_updates_valid(st: IntermediateStateRootState) -> bool {
    forall|u: int|
        0 <= u < st.updates.account_nodes@.len() ==> update_valid(
            #[trigger] st.updates.account_nodes@[u],
        )
}

/// An incremental state-root calculator: the prefix sets scoping the walk,
/// and the leaf-visit threshold above which a walk with progress yields a
/// checkpoint.
#[derive(Debug)]
pub struct StateRoot {
    /// Prefixes whose subtrees must be recomputed.
    pub prefix_sets: TriePrefixSets,
    /// Leaf-visit budget of one invocation of the walk with progress.
    pub threshold: u64,
}

impl StateRoot {
    /// Replace the threshold.
    pub fn with_threshold(self, threshold: u64) -> (r: StateRoot)
        ensures
            r.threshold == threshold,
            r.prefix_sets == self.prefix_sets,
    {
        StateRoot { prefix_sets: self.prefix_sets, threshold }
    }

    /// Replace the prefix sets.
    pub fn with_prefix_sets(self, prefix_sets: TriePrefixSets) -> (r: StateRoot)
        ensures
            r.threshold == self.threshold,
            r.prefix_sets == prefix_sets,
    {
        StateRoot { prefix_sets, threshold: self.threshold }
    }

    /// Compute the state root, reusing stored subtree hashes outside the
    /// changed prefixes. Whenever the stored nodes agree with the hashed
    /// state there, the result is the state root of the hashed state.
    pub fn root(&self, tx: &DbTxRefWrapper) -> (r: Result<B256, StateRootError>)
        requires
            tx.wf(),
        ensures
            r is Ok,
            r->Ok_0.wf(),
            trie_ok(
                tx.accounts_trie@,
                account_leaves_spec(tx.hashed_accounts@, tx.hashed_storages@),
                self.prefix_sets.account_prefix_set,
            ) ==> r->Ok_0@ == state_root_of(tx.hashed_accounts@, tx.hashed_storages@),
    {
        let ghost full = account_leaves_spec(tx.hashed_accounts@, tx.hashed_storages@);
        let leaves = build_account_leaves(tx);
        let mut updates = TrieUpdates::new();
        let path = Nibbles::empty();
        proof {
            lemma_prefix_filter_empty(full);
        }
        let h = compute_subtree_cached(
            &leaves,
            &path,
            &tx.accounts_trie,
            &self.prefix_sets.account_prefix_set,
            false,
            &mut updates,
            Ghost(full),
        );
        Ok(h)
    }

    /// Compute the state root and collect the trie updates of the walk:
    /// one node per recomputed branch, carrying its subtree's root hash.
    /// The threshold is ignored; the walk always runs to completion.
    pub fn root_with_updates(&self, tx: &DbTxRefWrapper) -> (r: Result<
        (B256, TrieUpdates),
        StateRootError,
    >)
        requires
            tx.wf(),
        ensures
            r is Ok,
            (r->Ok_0).0.wf(),
            forall|u: int|
                0 <= u < (r->Ok_0).1.account_nodes@.len() ==> update_valid(
                    #[trigger] (r->Ok_0).1.account_nodes@[u],
                ),
            trie_ok(
                tx.accounts_trie@,
                account_leaves_spec(tx.hashed_accounts@, tx.hashed_storages@),
                self.prefix_sets.account_prefix_set,
            ) ==> {
                &&& (r->Ok_0).0@ == state_root_of(tx.hashed_accounts@, tx.hashed_storages@)
                &&& forall|u: int|
                    0 <= u < (r->Ok_0).1.account_nodes@.len() ==> update_ok(
                        #[trigger] (r->Ok_0).1.account_nodes@[u],
                        account_leaves_spec(tx.hashed_accounts@, tx.hashed_storages@),
                    )
            },
            (account_leaves_spec(tx.hashed_accounts@, tx.hashed_storages@).len() >= 2 && (
            self.prefix_sets.account_prefix_set.contains_spec(Seq::<u8>::empty()) || !(
            acct_lookup(tx.accounts_trie@, Seq::<u8>::empty()) is Some && acct_lookup(
                tx.accounts_trie@,
                Seq::<u8>::empty(),
            )->0.root_hash is Some))) ==> records_path(
                (r->Ok_0).1.account_nodes@,
                0,
                Seq::<u8>::empty(),
            ),
    {
        let ghost full = account_leaves_spec(tx.hashed_accounts@, tx.hashed_storages@);
        let leaves = build_account_leaves(tx);
        let mut updates = TrieUpdates::new();
        let path = Nibbles::empty();
        proof {
            lemma_prefix_filter_empty(full);
        }
        let h = compute_subtree_cached(
            &leaves,
            &path,
            &tx.accounts_trie,
            &self.prefix_sets.account_prefix_set,
            true,
            &mut updates,
            Ghost(full),
        );
        Ok((h, updates))
    }

    /// Compute the state root under the leaf-visit threshold: when the
    /// budget runs out mid-walk, yield a checkpoint instead of the root.
    pub fn root_with_progress(&self, tx: &DbTxRefWrapper) -> (r: Result<
        StateRootProgress,
        StateRootError,
    >)
        requires
            tx.wf(),
        ensures
            r is Ok,
            (r->Ok_0 matches StateRootProgress::Intermediate(st) ==> st.next_nibble <= 16
                && st.child_items@.len() == st.next_nibble && progress_updates_valid(st)),
            trie_ok(
                tx.accounts_trie@,
                account_leaves_spec(tx.hashed_accounts@, tx.hashed_storages@),
                self.prefix_sets.account_prefix_set,
            ) ==> match r->Ok_0 {
                StateRootProgress::Complete(h) => h@ == state_root_of(
                    tx.hashed_accounts@,
                    tx.hashed_storages@,
                ),
                StateRootProgress::Intermediate(st) => progress_consistent(
                    st,
                    account_leaves_spec(tx.hashed_accounts@, tx.hashed_storages@),
                ),
            },
            (account_leaves_spec(tx.hashed_accounts@, tx.hashed_storages@).len()
                > self.threshold && account_leaves_spec(
                tx.hashed_accounts@,
                tx.hashed_storages@,
            ).len() >= 2) ==> r->Ok_0 is Intermediate,
            account_leaves_spec(tx.hashed_accounts@, tx.hashed_storages@).len()
                <= self.threshold ==> r->Ok_0 is Complete,
    {
        let state = IntermediateStateRootState {
            next_nibble: 0,
            child_items: Vec::new(),
            updates: TrieUpdates::new(),
            visited: 0,
        };
        proof {
            let full = account_leaves_spec(tx.hashed_accounts@, tx.hashed_storages@);
            assert(byte_views(state.child_items@) + children_encodings(full, 0, 0)
                =~= children_encodings(full, 0, 0));
        }
        let ghost st0 = state;
        let r = self.root_with_progress_from(tx, state);
        proof {
            let full = account_leaves_spec(tx.hashed_accounts@, tx.hashed_storages@);
            if trie_ok(tx.accounts_trie@, full, self.prefix_sets.account_prefix_set) {
                if full.len() >= 2 {
                    assert(progress_consistent(st0, full));
                }
            }
        }
        r
    }

    /// Resume a thresholded walk from a checkpoint, or start one from the
    /// initial state. When the stored nodes agree with the hashed state
    /// outside the changed prefixes and the checkpoint matches the leaves,
    /// completion yields exactly the state root of the hashed state.
    pub fn root_with_progress_from(&self, tx: &DbTxRefWrapper, state: IntermediateStateRootState)
        -> (r: Result<StateRootProgress, StateRootError>)
        requires
            tx.wf(),
            state.next_nibble <= 16,
            state.child_items@.len() == state.next_nibble,
            progress_updates_valid(state),
        ensures
            r is Ok,
            (r->Ok_0 matches StateRootProgress::Intermediate(st) ==> st.next_nibble <= 16
                && st.child_items@.len() == st.next_nibble && progress_updates_valid(st)),
            (trie_ok(
                tx.accounts_trie@,
                account_leaves_spec(tx.hashed_accounts@, tx.hashed_storages@),
                self.prefix_sets.account_prefix_set,
            ) && progress_consistent(
                state,
                account_leaves_spec(tx.hashed_accounts@, tx.hashed_storages@),
            )) ==> match r->Ok_0 {
                StateRootProgress::Complete(h) => h@ == state_root_of(
                    tx.hashed_accounts@,
                    tx.hashed_storages@,
                ),
                StateRootProgress::Intermediate(st) => progress_consistent(
                    st,
                    account_leaves_spec(tx.hashed_accounts@, tx.hashed_storages@),
                ),
            },
            (trie_ok(
                tx.accounts_trie@,
                account_leaves_spec(tx.hashed_accounts@, tx.hashed_storages@),
                self.prefix_sets.account_prefix_set,
            ) && account_leaves_spec(tx.hashed_accounts@, tx.hashed_storages@).len() < 2
                && state.next_nibble == 0) ==> (r->Ok_0 matches StateRootProgress::Complete(h)
                && h@ == state_root_of(tx.hashed_accounts@, tx.hashed_storages@)),
            (state.next_nibble == 0 && state.visited == 0
                && account_leaves_spec(tx.hashed_accounts@, tx.hashed_storages@).len()
                > self.threshold && account_leaves_spec(
                tx.hashed_accounts@,
                tx.hashed_storages@,
            ).len() >= 2) ==> r->Ok_0 is Intermediate,
            (state.next_nibble == 0 && state.visited == 0
                && account_leaves_spec(tx.hashed_accounts@, tx.hashed_storages@).len()
                <= self.threshold) ==> r->Ok_0 is Complete,
    {
        let ghost full = account_leaves_spec(tx.hashed_accounts@, tx.hashed_storages@);
        let ghost pfx = self.prefix_sets.account_prefix_set;
        let leaves = build_account_leaves(tx);
        let ghost lv = leaf_views(leaves@);
        if leaves.len() < 2 && state.next_nibble == 0 {
            // too few leaves for a sixteen-way split: finish directly
            let mut updates = state.updates;
            let path = Nibbles::empty();
            proof {
                lemma_prefix_filter_empty(full);
            }
            let h = compute_subtree_cached(
                &leaves,
                &path,
                &tx.accounts_trie,
                &self.prefix_sets.account_prefix_set,
                true,
                &mut updates,
                Ghost(full),
            );
            return Ok(StateRootProgress::Complete(h));
        }
        let ghost start_nibble = state.next_nibble;
        let mut items = state.child_items;
        let mut updates = state.updates;
        let mut visited = state.visited;
        let mut nib: u8 = state.next_nibble;
        let leaf_count = leaves.len();
        proof {
            lemma_prefix_filter_empty(full);
            assert(full.len() == leaf_count);
        }
        while nib < 16
            invariant
                nib <= 16,
                tx.wf(),
                full == account_leaves_spec(tx.hashed_accounts@, tx.hashed_storages@),
                pfx == self.prefix_sets.account_prefix_set,
                lv == leaf_views(leaves@),
                lv == full,
                leaves_wf(full),
                items@.len() == nib,
                full.len() >= 2 || start_nibble > 0,
                start_nibble == state.next_nibble,
                full.len() <= u64::MAX,
                nib != start_nibble ==> visited <= self.threshold,
                (start_nibble == 0 && state.visited == 0) ==> visited
                    == count_upto(full, nib as nat),
                forall|u: int|
                    0 <= u < updates.account_nodes@.len() ==> update_valid(
                        #[trigger] updates.account_nodes@[u],
                    ),
                (trie_ok(tx.accounts_trie@, full, pfx) && progress_consistent(state, full))
                    ==> byte_views(items@) + children_encodings(full, 0, nib as nat)
                    == children_encodings(full, 0, 0),
            decreases 16 - nib,
        {
            let ghost pre_items = items@;
            let sub = filter_by_nibble(&leaves, 0, nib);
            let ghost sv = leaf_views(sub@);
            let mut child_path = Nibbles::empty();
            child_path.push(nib);
            proof {
                lemma_prefix_filter_empty(full);
                lemma_prefix_step(full, Seq::<u8>::empty(), nib);
                assert(Seq::<u8>::empty().push(nib) =~= child_path@);
                assert(sv == nibble_filter(full, 0, nib));
                assert(sv == prefix_filter(full, child_path@));
            }
            let child = if sub.len() == 0 {
                Vec::new()
            } else {
                let c = compute_subtree_cached(
                    &sub,
                    &child_path,
                    &tx.accounts_trie,
                    &self.prefix_sets.account_prefix_set,
                    true,
                    &mut updates,
                    Ghost(full),
                );
                c.bytes
            };
            let ghost chv = child@;
            items.push(child);
            let add = sub.len() as u64;
            proof {
                if start_nibble == 0 && state.visited == 0 {
                    lemma_count_upto_all(full);
                    assert(count_upto(full, nib as nat + 1) == count_upto(full, nib as nat)
                        + nibble_filter(full, 0, nib).len());
                    assert(sv.len() == nibble_filter(full, 0, nib).len());
                    // the fresh walk's tally never saturates: it stays at
                    // the partition count, which the leaf count bounds
                    assert(count_upto(full, nib as nat + 1) <= full.len());
                    assert(visited + add <= u64::MAX);
                }
            }
            visited = if visited <= u64::MAX - add {
                visited + add
            } else {
                u64::MAX
            };
            proof {
                let ghost child_spec = if sv.len() == 0 {
                    Seq::<u8>::empty()
                } else {
                    subtree_root(sv, 1)
                };
                if trie_ok(tx.accounts_trie@, full, pfx) && progress_consistent(state, full) {
                    assert(chv == child_spec);
                    assert(byte_views(items@) =~= byte_views(pre_items).push(child_spec));
                    assert(children_encodings(full, 0, nib as nat) == seq![child_spec]
                        + children_encodings(full, 0, nib as nat + 1));
                    assert(byte_views(items@) + children_encodings(full, 0, nib as nat + 1)
                        =~= byte_views(pre_items) + children_encodings(full, 0, nib as nat));
                }
            }
            nib += 1;
            if visited > self.threshold {
                proof {
                    if start_nibble == 0 && state.visited == 0
                        && full.len() <= self.threshold {
                        lemma_count_upto_all(full);
                        assert(count_upto(full, nib as nat) <= full.len());
                        assert(false);
                    }
                }
                return Ok(
                    StateRootProgress::Intermediate(
                        IntermediateStateRootState {
                            next_nibble: nib,
                            child_items: items,
                            updates,
                            visited,
                        },
                    ),
                );
            }
        }
        proof {
            assert(children_encodings(full, 0, 16) =~= Seq::<Seq<u8>>::empty());
            if trie_ok(tx.accounts_trie@, full, pfx) && progress_consistent(state, full) {
                assert(byte_views(items@) =~= children_encodings(full, 0, 0));
                assert(full.len() >= 2 || state.next_nibble > 0);
            }
            if state.next_nibble == 0 && state.visited == 0 && full.len() > self.threshold
                && full.len() >= 2 {
                // the walk visited every leaf, so the budget ran out and
                // a checkpoint was yielded before this point
                lemma_count_upto_all(full);
                assert(nib == 16 && nib != start_nibble);
                assert(visited >= count_upto(full, nib as nat));
                assert(false);
            }
        }
        let enc = rlp_encode_list(&items);
        let h = keccak256(&enc);
        proof {
            if trie_ok(tx.accounts_trie@, full, pfx) && progress_consistent(state, full) {
                if full.len() >= 2 {
                    assert(h@ == subtree_root(full, 0));
                }
            }
        }
        Ok(StateRootProgress::Complete(h))
    }
}

/// A storage-root calculator for one account, bound to its hashed address.
#[derive(Debug)]
pub struct StorageRoot {
    /// The account's hashed address.
    pub hashed_address: B256,
}

impl StorageRoot {
    /// Compute the account's storage root from its hashed storage slots.
    pub fn root(&self, tx: &DbTxRefWrapper) -> (r: Result<B256, StateRootError>)
        requires
            tx.wf(),
        ensures
            r is Ok,
            r->Ok_0.wf(),
            r->Ok_0@ == storage_root_of(tx.hashed_storages@, self.hashed_address@),
    {
        let leaves = build_storage_leaves(&tx.hashed_storages, &self.hashed_address);
        proof {
            let lv = leaf_views(leaves@);
            assert forall|x: int, y: int|
                0 <= x < lv.len() && 0 <= y < lv.len() implies (#[trigger] lv[x]).0.take(0)
                    == (#[trigger] lv[y]).0.take(0) by {
                assert(lv[x].0.take(0) =~= lv[y].0.take(0));
            }
        }
        let h = compute_subtree(&leaves, 0);
        Ok(h)
    }
}

/// Round-trip idempotence: the state root is a function of the hashed
/// state alone, so computing it twice against unchanged data yields the
/// identical hash, and an incremental computation whose stored nodes agree
/// with the hashed state yields the same hash as a computation from
/// scratch: each returns exactly `state_root_of` of the same tables.
pub proof fn lemma_state_root_idempotent(
    ha: Seq<(B256, Vec<u8>)>,
    hs: Seq<(B256, B256, Vec<u8>)>,
    r1: Seq<u8>,
    r2: Seq<u8>,
)
    requires
        r1 == state_root_of(ha, hs),
        r2 == state_root_of(ha, hs),
    ensures
        r1 == r2,
{
}

/// Threshold boundary: a thresholded walk that was suspended and resumed
/// to completion yields the same final hash as an unthresholded walk over
/// identical input, since each completion returns exactly `state_root_of`
/// of the same tables.
pub proof fn lemma_resumed_matches_unthresholded(
    ha: Seq<(B256, Vec<u8>)>,
    hs: Seq<(B256, B256, Vec<u8>)>,
    resumed: Seq<u8>,
    direct: Seq<u8>,
)
    requires
        resumed == state_root_of(ha, hs),
        direct == state_root_of(ha, hs),
    ensures
        resumed == direct,
{
}

} // verus!
