//! Prefix sets: the nibble-path prefixes whose subtrees a block range may
//! have changed, and the loader that derives them from the per-block change
//! logs.

use vstd::prelude::*;
use crate::nibbles::Nibbles;
use crate::node::{B256, b256_eq};
use crate::hash::{keccak_of, keccak256, unpack_spec, unpack_key};
use crate::trie_cursor::DbTxRefWrapper;

verus! {

/// One account-change row of the change log: the account was touched in the
/// given block, and whether it first appeared there.
#[derive(Debug)]
pub struct AccountChange {
    /// Block in which the change happened.
    pub block: u64,
    /// The account's address (not hashed).
    pub address: Vec<u8>,
    /// Whether the account was newly created in that block.
    pub created: bool,
}

/// One storage-change row of the change log: the slot of the account was
/// touched in the given block.
#[derive(Debug)]
pub struct StorageChange {
    /// Block in which the change happened.
    pub block: u64,
    /// The owning account's address (not hashed).
    pub address: Vec<u8>,
    /// The touched storage slot key (not hashed).
    pub slot: Vec<u8>,
}

/// A set of nibble-path prefixes marking subtrees that may have changed,
/// with a flag that marks the whole trie for rebuilding.
#[derive(Debug)]
pub struct PrefixSet {
    /// The stored changed paths.
    pub keys: Vec<Nibbles>,
    /// When set, every prefix is considered changed.
    pub all: bool,
}

impl PrefixSet {
    /// The set holds `k` as a stored changed path.
    pub open spec fn has_key(&self, k: Seq<u8>) -> bool {
        exists|i: int| 0 <= i < self.keys@.len() && (#[trigger] self.keys@[i])@ == k
    }

    /// Some stored changed path extends `p` (or everything is marked
    /// changed): the subtree below `p` must be revisited.
    pub open spec fn contains_spec(&self, p: Seq<u8>) -> bool {
        self.all || exists|i: int|
            0 <= i < self.keys@.len() && p.is_prefix_of((#[trigger] self.keys@[i])@)
    }

    /// An empty set: nothing marked changed.
    pub fn empty() -> (r: PrefixSet)
        ensures
            r.keys@.len() == 0,
            !r.all,
            forall|p: Seq<u8>| !r.contains_spec(p),
    {
        PrefixSet { keys: Vec::new(), all: false }
    }

    /// The full set: everything marked changed.
    pub fn all() -> (r: PrefixSet)
        ensures
            r.all,
            forall|p: Seq<u8>| r.contains_spec(p),
    {
        PrefixSet { keys: Vec::new(), all: true }
    }

    /// Record a changed path.
    pub fn insert(&mut self, key: Nibbles)
        ensures
            final(self).has_key(key@),
            final(self).all == old(self).all,
            forall|k: Seq<u8>| old(self).has_key(k) ==> final(self).has_key(k),
            forall|k: Seq<u8>| final(self).has_key(k) ==> old(self).has_key(k) || k == key@,
    {
        let ghost old_keys = self.keys@;
        self.keys.push(key);
        proof {
            let n = self.keys@.len() - 1;
            assert(self.keys@[n]@ == key@);
            assert forall|k: Seq<u8>| old(self).has_key(k) implies self.has_key(k) by {
                let i = choose|i: int| 0 <= i < old_keys.len() && (#[trigger] old_keys[i])@ == k;
                assert(self.keys@[i]@ == k);
            }
        }
    }

    /// Whether any stored changed path extends `p`.
    pub fn contains(&self, p: &Nibbles) -> (r: bool)
        ensures
            r == self.contains_spec(p@),
    {
        if self.all {
            return true;
        }
        let n = self.keys.len();
        let mut i: usize = 0;
        while i < n
            invariant
                i <= n,
                n == self.keys@.len(),
                !self.all,
                forall|j: int| 0 <= j < i ==> !p@.is_prefix_of((#[trigger] self.keys@[j])@),
            decreases n - i,
        {
            if nibbles_starts_with(&self.keys[i], p) {
                return true;
            }
            i += 1;
        }
        false
    }
}

/// Whether `key` starts with `prefix`.
pub fn nibbles_starts_with(key: &Nibbles, prefix: &Nibbles) -> (r: bool)
    ensures
        r == prefix@.is_prefix_of(key@),
{
    let pn = prefix.len();
    if pn > key.len() {
        return false;
    }
    let mut i: usize = 0;
    while i < pn
        invariant
            i <= pn,
            pn == prefix@.len(),
            pn <= key@.len(),
            forall|j: int| 0 <= j < i ==> prefix@[j] == key@[j],
        decreases pn - i,
    {
        if prefix.get(i) != key.get(i) {
            return false;
        }
        i += 1;
    }
    proof {
        assert(prefix@ =~= key@.subrange(0, pn as int));
    }
    true
}

/// The prefix sets of one block range: the account-trie set, and one
/// storage-trie set per touched account, keyed by hashed address.
#[derive(Debug)]
pub struct TriePrefixSets {
    /// Paths of the account trie to revisit.
    pub account_prefix_set: PrefixSet,
    /// Per-account storage-trie sets, keyed by hashed account address.
    pub storage_prefix_sets: Vec<(B256, PrefixSet)>,
}

impl TriePrefixSets {
    /// Empty sets: nothing to revisit.
    pub fn empty() -> (r: TriePrefixSets)
        ensures
            !r.account_prefix_set.all,
            r.account_prefix_set.keys@.len() == 0,
            r.storage_prefix_sets@.len() == 0,
    {
        TriePrefixSets {
            account_prefix_set: PrefixSet::empty(),
            storage_prefix_sets: Vec::new(),
        }
    }

    /// Full account set: revisit the whole account trie.
    pub fn all() -> (r: TriePrefixSets)
        ensures
            r.account_prefix_set.all,
            r.storage_prefix_sets@.len() == 0,
    {
        TriePrefixSets {
            account_prefix_set: PrefixSet::all(),
            storage_prefix_sets: Vec::new(),
        }
    }
}

/// `k` is the hashed path of an account the range touched: the account
/// itself changed in an in-range block, or one of its storage slots did.
/// These are exactly the account-trie paths a range marks as changed.
pub open spec fn account_path_changed(
    k: Seq<u8>,
    achanges: Seq<AccountChange>,
    schanges: Seq<StorageChange>,
    from: u64,
    to: u64,
) -> bool {
    ||| exists|c: int|
        0 <= c < achanges.len() && from <= (#[trigger] achanges[c]).block <= to && k
            == unpack_spec(keccak_of(achanges[c].address@))
    ||| exists|c: int|
        0 <= c < schanges.len() && from <= (#[trigger] schanges[c]).block <= to && k
            == unpack_spec(keccak_of(schanges[c].address@))
}

/// The changed path `k` in account `a`'s storage set is accounted for by
/// an in-range storage change: some touched slot of the account hashes and
/// unpacks to exactly `k`.
pub open spec fn key_from_changes(
    a: Seq<u8>,
    k: Seq<u8>,
    changes: Seq<StorageChange>,
    from: u64,
    to: u64,
) -> bool {
    exists|c: int|
        0 <= c < changes.len() && from <= (#[trigger] changes[c]).block <= to && a == keccak_of(
            changes[c].address@,
        ) && k == unpack_spec(keccak_of(changes[c].slot@))
}

/// The rebuild mark of account `a`'s storage set is accounted for by an
/// in-range account change that created the account.
pub open spec fn all_from_changes(
    a: Seq<u8>,
    changes: Seq<AccountChange>,
    from: u64,
    to: u64,
) -> bool {
    exists|c: int|
        0 <= c < changes.len() && from <= (#[trigger] changes[c]).block <= to && changes[
            c
        ].created && a == keccak_of(changes[c].address@)
}

/// The per-account storage sets hold nothing beyond what the change logs
/// of the range dictate: every recorded path comes from an in-range
/// storage change of its account, and every rebuild mark from an in-range
/// creation. Together with the coverage clauses this makes the sets exact.
pub open spec fn sets_only_from_changes(
    sets: Seq<(B256, PrefixSet)>,
    schanges: Seq<StorageChange>,
    achanges: Seq<AccountChange>,
    from: u64,
    to: u64,
) -> bool {
    &&& forall|i: int, x: int|
        #![trigger sets[i].1.keys@[x]]
        0 <= i < sets.len() && 0 <= x < sets[i].1.keys@.len() ==> key_from_changes(
            (sets[i]).0@,
            (sets[i].1.keys@[x])@,
            schanges,
            from,
            to,
        )
    &&& forall|i: int|
        0 <= i < sets.len() && (#[trigger] sets[i]).1.all ==> all_from_changes(
            (sets[i]).0@,
            achanges,
            from,
            to,
        )
}

/// Account `a`'s storage set records `k` as a changed path.
pub open spec fn storage_covered(sets: Seq<(B256, PrefixSet)>, a: Seq<u8>, k: Seq<u8>) -> bool {
    exists|i: int| 0 <= i < sets.len() && (#[trigger] sets[i]).0@ == a && sets[i].1.has_key(k)
}

/// Account `a`'s storage set is marked for full rebuild.
pub open spec fn storage_marked_all(sets: Seq<(B256, PrefixSet)>, a: Seq<u8>) -> bool {
    exists|i: int| 0 <= i < sets.len() && (#[trigger] sets[i]).0@ == a && sets[i].1.all
}

/// Derives prefix sets from the change logs of a block range.
#[derive(Debug)]
pub struct PrefixSetLoader;

impl PrefixSetLoader {
    /// Translate the inclusive block range `[from, to]` into prefix sets:
    /// the hashed path of every account touched in the range goes into the
    /// account set; the hashed path of every touched slot goes into its
    /// account's storage set; the storage set of an account created in the
    /// range is marked for full rebuild.
    pub fn load(tx: &DbTxRefWrapper, from: u64, to: u64) -> (r: TriePrefixSets)
        ensures
            !r.account_prefix_set.all,
            forall|k: Seq<u8>|
                account_path_changed(k, tx.account_changes@, tx.storage_changes@, from, to)
                    ==> #[trigger] r.account_prefix_set.has_key(k),
            forall|k: Seq<u8>|
                #[trigger] r.account_prefix_set.has_key(k) ==> account_path_changed(
                    k,
                    tx.account_changes@,
                    tx.storage_changes@,
                    from,
                    to,
                ),
            forall|c: int|
                0 <= c < tx.storage_changes@.len() && from <= (#[trigger] tx.storage_changes@[
                    c
                ]).block <= to ==> storage_covered(
                    r.storage_prefix_sets@,
                    keccak_of(tx.storage_changes@[c].address@),
                    unpack_spec(keccak_of(tx.storage_changes@[c].slot@)),
                ),
            forall|c: int|
                0 <= c < tx.account_changes@.len() && from <= (#[trigger] tx.account_changes@[
                    c
                ]).block <= to && tx.account_changes@[c].created ==> storage_marked_all(
                    r.storage_prefix_sets@,
                    keccak_of(tx.account_changes@[c].address@),
                ),
            sets_only_from_changes(
                r.storage_prefix_sets@,
                tx.storage_changes@,
                tx.account_changes@,
                from,
                to,
            ),
    {
        let mut account_prefix_set = PrefixSet::empty();
        let mut storage_prefix_sets: Vec<(B256, PrefixSet)> = Vec::new();

        let na = tx.account_changes.len();
        let mut c: usize = 0;
        while c < na
            invariant
                c <= na,
                na == tx.account_changes@.len(),
                !account_prefix_set.all,
                forall|j: int|
                    0 <= j < c && from <= (#[trigger] tx.account_changes@[j]).block <= to
                        ==> account_prefix_set.has_key(
                        unpack_spec(keccak_of(tx.account_changes@[j].address@)),
                    ),
                forall|k: Seq<u8>|
                    account_prefix_set.has_key(k) ==> exists|j: int|
                        0 <= j < c && from <= (#[trigger] tx.account_changes@[j]).block <= to && k
                            == unpack_spec(keccak_of(tx.account_changes@[j].address@)),
            decreases na - c,
        {
            let ch = &tx.account_changes[c];
            if from <= ch.block && ch.block <= to {
                let hashed = keccak256(&ch.address);
                let path = unpack_key(&hashed);
                account_prefix_set.insert(path);
            }
            c += 1;
        }

        let ns = tx.storage_changes.len();
        let mut c2: usize = 0;
        while c2 < ns
            invariant
                c2 <= ns,
                ns == tx.storage_changes@.len(),
                na == tx.account_changes@.len(),
                !account_prefix_set.all,
                forall|j: int|
                    0 <= j < na && from <= (#[trigger] tx.account_changes@[j]).block <= to
                        ==> account_prefix_set.has_key(
                        unpack_spec(keccak_of(tx.account_changes@[j].address@)),
                    ),
                forall|j: int|
                    0 <= j < c2 && from <= (#[trigger] tx.storage_changes@[j]).block <= to
                        ==> account_prefix_set.has_key(
                        unpack_spec(keccak_of(tx.storage_changes@[j].address@)),
                    ),
                forall|k: Seq<u8>|
                    #[trigger] account_prefix_set.has_key(k) ==> (exists|j: int|
                        0 <= j < na && from <= (#[trigger] tx.account_changes@[j]).block <= to
                            && k == unpack_spec(keccak_of(tx.account_changes@[j].address@)))
                        || (exists|j: int|
                        0 <= j < c2 && from <= (#[trigger] tx.storage_changes@[j]).block <= to
                            && k == unpack_spec(keccak_of(tx.storage_changes@[j].address@))),
                forall|j: int|
                    0 <= j < c2 && from <= (#[trigger] tx.storage_changes@[j]).block <= to
                        ==> storage_covered(
                        storage_prefix_sets@,
                        keccak_of(tx.storage_changes@[j].address@),
                        unpack_spec(keccak_of(tx.storage_changes@[j].slot@)),
                    ),
                sets_only_from_changes(
                    storage_prefix_sets@,
                    tx.storage_changes@,
                    tx.account_changes@,
                    from,
                    to,
                ),
            decreases ns - c2,
        {
            let ch = &tx.storage_changes[c2];
            if from <= ch.block && ch.block <= to {
                let hashed = keccak256(&ch.address);
                // the account's own trie path must be revisited too: its
                // leaf folds in the storage root that just changed
                let acct_path = unpack_key(&hashed);
                account_prefix_set.insert(acct_path);
                let slot_hash = keccak256(&ch.slot);
                let slot_path = unpack_key(&slot_hash);
                let ghost pre = storage_prefix_sets@;
                add_storage_key(&mut storage_prefix_sets, &hashed, slot_path);
                proof {
                    let post = storage_prefix_sets@;
                    assert forall|j: int|
                        0 <= j < c2 && from <= (#[trigger] tx.storage_changes@[j]).block <= to
                        implies storage_covered(
                        post,
                        keccak_of(tx.storage_changes@[j].address@),
                        unpack_spec(keccak_of(tx.storage_changes@[j].slot@)),
                    ) by {
                        lemma_covered_grows(pre, post,
                            keccak_of(tx.storage_changes@[j].address@),
                            unpack_spec(keccak_of(tx.storage_changes@[j].slot@)));
                    }
                    assert forall|i: int, x: int|
                        #![trigger post[i].1.keys@[x]]
                        0 <= i < post.len() && 0 <= x < post[i].1.keys@.len() implies
                        key_from_changes(
                        (post[i]).0@,
                        (post[i].1.keys@[x])@,
                        tx.storage_changes@,
                        from,
                        to,
                    ) by {
                        let k = (post[i].1.keys@[x])@;
                        if storage_covered(pre, (post[i]).0@, k) {
                            let i0 = choose|i0: int|
                                0 <= i0 < pre.len() && (#[trigger] pre[i0]).0@ == (post[i]).0@
                                    && pre[i0].1.has_key(k);
                            let x0 = choose|x0: int|
                                0 <= x0 < pre[i0].1.keys@.len()
                                    && (#[trigger] pre[i0].1.keys@[x0])@ == k;
                            assert(key_from_changes((pre[i0]).0@, k, tx.storage_changes@,
                                from, to));
                        } else {
                            // the freshly recorded path of this change
                            assert((post[i]).0@ == hashed@ && k == slot_path@);
                            assert(from <= tx.storage_changes@[c2 as int].block <= to);
                        }
                    }
                    assert forall|i: int|
                        0 <= i < post.len() && (#[trigger] post[i]).1.all implies
                        all_from_changes((post[i]).0@, tx.account_changes@, from, to) by {
                        let i0 = choose|i0: int|
                            0 <= i0 < pre.len() && (#[trigger] pre[i0]).0@ == (post[i]).0@
                                && pre[i0].1.all;
                        assert(all_from_changes((pre[i0]).0@, tx.account_changes@, from, to));
                    }
                }
            }
            c2 += 1;
        }

        let mut c3: usize = 0;
        while c3 < na
            invariant
                c3 <= na,
                na == tx.account_changes@.len(),
                forall|j: int|
                    0 <= j < ns && from <= (#[trigger] tx.storage_changes@[j]).block <= to
                        ==> storage_covered(
                        storage_prefix_sets@,
                        keccak_of(tx.storage_changes@[j].address@),
                        unpack_spec(keccak_of(tx.storage_changes@[j].slot@)),
                    ),
                ns == tx.storage_changes@.len(),
                forall|j: int|
                    0 <= j < c3 && from <= (#[trigger] tx.account_changes@[j]).block <= to
                        && tx.account_changes@[j].created ==> storage_marked_all(
                        storage_prefix_sets@,
                        keccak_of(tx.account_changes@[j].address@),
                    ),
                sets_only_from_changes(
                    storage_prefix_sets@,
                    tx.storage_changes@,
                    tx.account_changes@,
                    from,
                    to,
                ),
            decreases na - c3,
        {
            let ch = &tx.account_changes[c3];
            if from <= ch.block && ch.block <= to && ch.created {
                let hashed = keccak256(&ch.address);
                let ghost pre = storage_prefix_sets@;
                mark_storage_all(&mut storage_prefix_sets, &hashed);
                proof {
                    let post = storage_prefix_sets@;
                    assert forall|j: int|
                        0 <= j < ns && from <= (#[trigger] tx.storage_changes@[j]).block <= to
                        implies storage_covered(
                        post,
                        keccak_of(tx.storage_changes@[j].address@),
                        unpack_spec(keccak_of(tx.storage_changes@[j].slot@)),
                    ) by {
                        lemma_covered_grows(pre, post,
                            keccak_of(tx.storage_changes@[j].address@),
                            unpack_spec(keccak_of(tx.storage_changes@[j].slot@)));
                    }
                    assert forall|j: int|
                        0 <= j < c3 && from <= (#[trigger] tx.account_changes@[j]).block <= to
                            && tx.account_changes@[j].created implies storage_marked_all(
                        post,
                        keccak_of(tx.account_changes@[j].address@),
                    ) by {
                        lemma_marked_grows(pre, post,
                            keccak_of(tx.account_changes@[j].address@));
                    }
                    assert forall|i: int, x: int|
                        #![trigger post[i].1.keys@[x]]
                        0 <= i < post.len() && 0 <= x < post[i].1.keys@.len() implies
                        key_from_changes(
                        (post[i]).0@,
                        (post[i].1.keys@[x])@,
                        tx.storage_changes@,
                        from,
                        to,
                    ) by {
                        let k = (post[i].1.keys@[x])@;
                        let i0 = choose|i0: int|
                            0 <= i0 < pre.len() && (#[trigger] pre[i0]).0@ == (post[i]).0@
                                && pre[i0].1.has_key(k);
                        let x0 = choose|x0: int|
                            0 <= x0 < pre[i0].1.keys@.len()
                                && (#[trigger] pre[i0].1.keys@[x0])@ == k;
                        assert(key_from_changes((pre[i0]).0@, k, tx.storage_changes@, from,
                            to));
                    }
                    assert forall|i: int|
                        0 <= i < post.len() && (#[trigger] post[i]).1.all implies
                        all_from_changes((post[i]).0@, tx.account_changes@, from, to) by {
                        if storage_marked_all(pre, (post[i]).0@) {
                            let i0 = choose|i0: int|
                                0 <= i0 < pre.len() && (#[trigger] pre[i0]).0@ == (post[i]).0@
                                    && pre[i0].1.all;
                            assert(all_from_changes((pre[i0]).0@, tx.account_changes@, from,
                                to));
                        } else {
                            // the freshly marked account of this creation
                            assert((post[i]).0@ == hashed@);
                            assert(from <= tx.account_changes@[c3 as int].block <= to);
                            assert(tx.account_changes@[c3 as int].created);
                        }
                    }
                }
            }
            c3 += 1;
        }

        proof {
            assert forall|k: Seq<u8>|
                account_path_changed(k, tx.account_changes@, tx.storage_changes@, from, to)
                implies #[trigger] account_prefix_set.has_key(k) by {
                if exists|j: int|
                    0 <= j < tx.account_changes@.len() && from <= (#[trigger] tx.account_changes@[
                        j
                    ]).block <= to && k == unpack_spec(keccak_of(tx.account_changes@[j].address@)) {
                    let j = choose|j: int|
                        0 <= j < tx.account_changes@.len() && from <= (
                        #[trigger] tx.account_changes@[j]).block <= to && k == unpack_spec(
                            keccak_of(tx.account_changes@[j].address@),
                        );
                    assert(account_prefix_set.has_key(
                        unpack_spec(keccak_of(tx.account_changes@[j].address@)),
                    ));
                } else {
                    let j = choose|j: int|
                        0 <= j < tx.storage_changes@.len() && from <= (
                        #[trigger] tx.storage_changes@[j]).block <= to && k == unpack_spec(
                            keccak_of(tx.storage_changes@[j].address@),
                        );
                    assert(account_prefix_set.has_key(
                        unpack_spec(keccak_of(tx.storage_changes@[j].address@)),
                    ));
                }
            }
        }
        TriePrefixSets { account_prefix_set, storage_prefix_sets }
    }
}

/// One prefix set subsumes another: same flag or stronger, every key kept.
pub open spec fn set_extends(b: PrefixSet, a: PrefixSet) -> bool {
    (a.all ==> b.all) && forall|k: Seq<u8>| a.has_key(k) ==> b.has_key(k)
}

/// Per-account sets only ever grow while the loader runs.
pub open spec fn sets_extend(post: Seq<(B256, PrefixSet)>, pre: Seq<(B256, PrefixSet)>) -> bool {
    forall|i: int|
        0 <= i < pre.len() ==> exists|j: int|
            0 <= j < post.len() && (#[trigger] post[j]).0@ == (#[trigger] pre[i]).0@
                && set_extends(post[j].1, pre[i].1)
}

/// Position of the entry for hashed address `a`, if one exists.
fn find_set(sets: &Vec<(B256, PrefixSet)>, a: &B256) -> (r: Option<usize>)
    ensures
        r is Some ==> r->0 < sets@.len() && sets@[r->0 as int].0@ == a@,
        r is None ==> forall|j: int| 0 <= j < sets@.len() ==> (#[trigger] sets@[j].0)@ != a@,
{
    let n = sets.len();
    let mut i: usize = 0;
    while i < n
        invariant
            i <= n,
            n == sets@.len(),
            forall|j: int| 0 <= j < i ==> (#[trigger] sets@[j].0)@ != a@,
        decreases n - i,
    {
        if b256_eq(&sets[i].0, a) {
            return Some(i);
        }
        i += 1;
    }
    None
}

/// A membership fact survives growth of the per-account sets.
proof fn lemma_covered_grows(pre: Seq<(B256, PrefixSet)>, post: Seq<(B256, PrefixSet)>, a: Seq<u8>, k: Seq<u8>)
    requires
        sets_extend(post, pre),
        storage_covered(pre, a, k),
    ensures
        storage_covered(post, a, k),
{
    let i0 = choose|i0: int|
        0 <= i0 < pre.len() && (#[trigger] pre[i0]).0@ == a && pre[i0].1.has_key(k);
    let j2 = choose|j2: int|
        0 <= j2 < post.len() && (#[trigger] post[j2]).0@ == (pre[i0]).0@
            && set_extends(post[j2].1, pre[i0].1);
    assert(post[j2].1.has_key(k));
}

/// A full-rebuild mark survives growth of the per-account sets.
proof fn lemma_marked_grows(pre: Seq<(B256, PrefixSet)>, post: Seq<(B256, PrefixSet)>, a: Seq<u8>)
    requires
        sets_extend(post, pre),
        storage_marked_all(pre, a),
    ensures
        storage_marked_all(post, a),
{
    let i0 = choose|i0: int|
        0 <= i0 < pre.len() && (#[trigger] pre[i0]).0@ == a && pre[i0].1.all;
    let j2 = choose|j2: int|
        0 <= j2 < post.len() && (#[trigger] post[j2]).0@ == (pre[i0]).0@
            && set_extends(post[j2].1, pre[i0].1);
    assert(post[j2].1.all);
}

/// Record the changed path `key` in account `a`'s storage set, creating the
/// set on first touch. Every set only grows.
fn add_storage_key(sets: &mut Vec<(B256, PrefixSet)>, a: &B256, key: Nibbles)
    ensures
        sets_extend(final(sets)@, old(sets)@),
        storage_covered(final(sets)@, a@, key@),
        forall|j: int, x: int|
            #![trigger final(sets)@[j].1.keys@[x]]
            0 <= j < final(sets)@.len() && 0 <= x < final(sets)@[j].1.keys@.len() ==> (
            storage_covered(old(sets)@, (final(sets)@[j]).0@, (final(sets)@[j].1.keys@[x])@)
                || ((final(sets)@[j]).0@ == a@ && (final(sets)@[j].1.keys@[x])@ == key@)),
        forall|j: int|
            0 <= j < final(sets)@.len() && (#[trigger] final(sets)@[j]).1.all
                ==> storage_marked_all(old(sets)@, (final(sets)@[j]).0@),
{
    let ghost pre = sets@;
    let found = find_set(sets, a);
    match found {
        Some(i) => {
            let mut pair = sets.remove(i);
            pair.1.insert(key);
            sets.push(pair);
            proof {
                let last = sets@.len() - 1;
                assert(sets@[last].0@ == a@ && sets@[last].1.has_key(key@));
                assert forall|w: int| #![trigger pre[w]] 0 <= w < pre.len() implies exists|j: int|
                    0 <= j < sets@.len() && (#[trigger] sets@[j]).0@ == (pre[w]).0@
                        && set_extends(sets@[j].1, pre[w].1) by {
                    if w == i {
                        assert(set_extends(sets@[last].1, pre[w].1));
                        assert(sets@[last].0@ == pre[w].0@);
                    } else if w < i {
                        assert(sets@[w] == pre[w]);
                        assert(set_extends(sets@[w].1, pre[w].1));
                    } else {
                        assert(sets@[w - 1] == pre[w]);
                        assert(set_extends(sets@[w - 1].1, pre[w].1));
                    }
                }
                assert forall|j: int, x: int|
                    #![trigger sets@[j].1.keys@[x]]
                    0 <= j < sets@.len() && 0 <= x < sets@[j].1.keys@.len() implies (
                    storage_covered(pre, (sets@[j]).0@, (sets@[j].1.keys@[x])@) || ((sets@[
                        j
                    ]).0@ == a@ && (sets@[j].1.keys@[x])@ == key@)) by {
                    let k = (sets@[j].1.keys@[x])@;
                    if j == last {
                        assert(sets@[last].1.has_key(k));
                        if pre[i as int].1.has_key(k) {
                            assert(pre[i as int].0@ == sets@[last].0@);
                            assert(storage_covered(pre, (sets@[last]).0@, k));
                        } else {
                            assert(k == key@);
                        }
                    } else {
                        let w = if j < i { j } else { j + 1 };
                        assert(sets@[j] == pre[w]);
                        assert(pre[w].1.has_key(k));
                        assert(storage_covered(pre, (sets@[j]).0@, k));
                    }
                }
                assert forall|j: int|
                    0 <= j < sets@.len() && (#[trigger] sets@[j]).1.all implies
                    storage_marked_all(pre, (sets@[j]).0@) by {
                    if j == last {
                        assert(pre[i as int].1.all);
                        assert(pre[i as int].0@ == sets@[last].0@);
                    } else {
                        let w = if j < i { j } else { j + 1 };
                        assert(sets@[j] == pre[w]);
                    }
                }
            }
        },
        None => {
            let mut ps = PrefixSet::empty();
            ps.insert(key);
            sets.push((a.clone(), ps));
            proof {
                let last = sets@.len() - 1;
                assert(sets@[last].0@ == a@ && sets@[last].1.has_key(key@));
                assert forall|w: int| #![trigger pre[w]] 0 <= w < pre.len() implies exists|j: int|
                    0 <= j < sets@.len() && (#[trigger] sets@[j]).0@ == (pre[w]).0@
                        && set_extends(sets@[j].1, pre[w].1) by {
                    assert(sets@[w] == pre[w]);
                    assert(set_extends(sets@[w].1, pre[w].1));
                }
                assert forall|j: int, x: int|
                    #![trigger sets@[j].1.keys@[x]]
                    0 <= j < sets@.len() && 0 <= x < sets@[j].1.keys@.len() implies (
                    storage_covered(pre, (sets@[j]).0@, (sets@[j].1.keys@[x])@) || ((sets@[
                        j
                    ]).0@ == a@ && (sets@[j].1.keys@[x])@ == key@)) by {
                    let k = (sets@[j].1.keys@[x])@;
                    if j == last {
                        assert(sets@[last].1.has_key(k));
                        assert(k == key@);
                    } else {
                        assert(sets@[j] == pre[j]);
                        assert(pre[j].1.has_key(k));
                        assert(storage_covered(pre, (sets@[j]).0@, k));
                    }
                }
                assert forall|j: int|
                    0 <= j < sets@.len() && (#[trigger] sets@[j]).1.all implies
                    storage_marked_all(pre, (sets@[j]).0@) by {
                    if j < last {
                        assert(sets@[j] == pre[j]);
                    }
                }
            }
        },
    }
}

/// Mark account `a`'s storage set for full rebuild, creating the set on
/// first touch. Every set only grows.
fn mark_storage_all(sets: &mut Vec<(B256, PrefixSet)>, a: &B256)
    ensures
        sets_extend(final(sets)@, old(sets)@),
        storage_marked_all(final(sets)@, a@),
        forall|j: int, x: int|
            #![trigger final(sets)@[j].1.keys@[x]]
            0 <= j < final(sets)@.len() && 0 <= x < final(sets)@[j].1.keys@.len()
                ==> storage_covered(
                old(sets)@,
                (final(sets)@[j]).0@,
                (final(sets)@[j].1.keys@[x])@,
            ),
        forall|j: int|
            0 <= j < final(sets)@.len() && (#[trigger] final(sets)@[j]).1.all ==> (
            storage_marked_all(old(sets)@, (final(sets)@[j]).0@) || (final(sets)@[j]).0@ == a@),
{
    let ghost pre = sets@;
    let found = find_set(sets, a);
    match found {
        Some(i) => {
            let mut pair = sets.remove(i);
            pair.1.all = true;
            sets.push(pair);
            proof {
                let last = sets@.len() - 1;
                assert(sets@[last].0@ == a@ && sets@[last].1.all);
                assert forall|w: int| #![trigger pre[w]] 0 <= w < pre.len() implies exists|j: int|
                    0 <= j < sets@.len() && (#[trigger] sets@[j]).0@ == (pre[w]).0@
                        && set_extends(sets@[j].1, pre[w].1) by {
                    if w == i {
                        assert(sets@[last].1.keys@ == pre[w].1.keys@);
                        assert forall|k: Seq<u8>| pre[w].1.has_key(k) implies
                            sets@[last].1.has_key(k) by {
                            let x = choose|x: int|
                                0 <= x < pre[w].1.keys@.len()
                                    && (#[trigger] pre[w].1.keys@[x])@ == k;
                            assert(sets@[last].1.keys@[x]@ == k);
                        }
                        assert(set_extends(sets@[last].1, pre[w].1));
                        assert(sets@[last].0@ == pre[w].0@);
                    } else if w < i {
                        assert(sets@[w] == pre[w]);
                        assert(set_extends(sets@[w].1, pre[w].1));
                    } else {
                        assert(sets@[w - 1] == pre[w]);
                        assert(set_extends(sets@[w - 1].1, pre[w].1));
                    }
                }
                assert forall|j: int, x: int|
                    #![trigger sets@[j].1.keys@[x]]
                    0 <= j < sets@.len() && 0 <= x < sets@[j].1.keys@.len() implies
                    storage_covered(pre, (sets@[j]).0@, (sets@[j].1.keys@[x])@) by {
                    let k = (sets@[j].1.keys@[x])@;
                    if j == last {
                        assert(sets@[last].1.keys@ == pre[i as int].1.keys@);
                        assert(pre[i as int].1.has_key(k));
                        assert(pre[i as int].0@ == sets@[last].0@);
                    } else {
                        let w = if j < i { j } else { j + 1 };
                        assert(sets@[j] == pre[w]);
                        assert(pre[w].1.has_key(k));
                    }
                }
                assert forall|j: int|
                    0 <= j < sets@.len() && (#[trigger] sets@[j]).1.all implies (
                    storage_marked_all(pre, (sets@[j]).0@) || (sets@[j]).0@ == a@) by {
                    if j != last {
                        let w = if j < i { j } else { j + 1 };
                        assert(sets@[j] == pre[w]);
                    }
                }
            }
        },
        None => {
            let ps = PrefixSet { keys: Vec::new(), all: true };
            sets.push((a.clone(), ps));
            proof {
                let last = sets@.len() - 1;
                assert(sets@[last].0@ == a@ && sets@[last].1.all);
                assert forall|w: int| #![trigger pre[w]] 0 <= w < pre.len() implies exists|j: int|
                    0 <= j < sets@.len() && (#[trigger] sets@[j]).0@ == (pre[w]).0@
                        && set_extends(sets@[j].1, pre[w].1) by {
                    assert(sets@[w] == pre[w]);
                    assert(set_extends(sets@[w].1, pre[w].1));
                }
                assert forall|j: int, x: int|
                    #![trigger sets@[j].1.keys@[x]]
                    0 <= j < sets@.len() && 0 <= x < sets@[j].1.keys@.len() implies
                    storage_covered(pre, (sets@[j]).0@, (sets@[j].1.keys@[x])@) by {
                    if j < last {
                        assert(sets@[j] == pre[j]);
                        assert(pre[j].1.has_key((sets@[j].1.keys@[x])@));
                    }
                }
                assert forall|j: int|
                    0 <= j < sets@.len() && (#[trigger] sets@[j]).1.all implies (
                    storage_marked_all(pre, (sets@[j]).0@) || (sets@[j]).0@ == a@) by {
                    if j < last {
                        assert(sets@[j] == pre[j]);
                    }
                }
            }
        },
    }
}

} // verus!
