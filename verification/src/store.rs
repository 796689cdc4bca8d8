//! The ordered key-value tables backing the tries, held in memory.
//!
//! The account trie lives in one table keyed by nibble path. Storage-trie
//! nodes are grouped under their owning account's hashed address and ordered
//! by nibble sub-key within the group; the duplicate-key grouping is modeled
//! as a composite ordered key (outer key, inner sub-key), which preserves the
//! cursor contract exactly. Two further tables hold the flat hashed state:
//! account leaf payloads and storage slot values.

use vstd::prelude::*;
use crate::nibbles::{
    Nibbles, nibbles_valid, nibbles_eq, nibbles_lt, lex_lt, lex_le,
    lemma_lex_lt_irrefl, lemma_lex_lt_total, lemma_lex_lt_asymm, lemma_lex_lt_trans,
};
use crate::node::{B256, BranchNodeCompact, StorageTrieEntry, b256_eq, b256_lt, node_matches};

verus! {

/// A failure of the underlying storage engine. The in-memory engine cannot
/// fail, so no operation here ever produces one, but the cursor protocol
/// carries it so that callers are written against the fallible interface.
#[derive(Debug, Clone, PartialEq, Eq, Structural)]
pub struct DatabaseError {
    /// Engine-specific code of the failure.
    pub code: u32,
}

/// Entries of the account trie table are sorted strictly by nibble path.
pub open spec fn acct_entries_sorted(s: Seq<(Nibbles, BranchNodeCompact)>) -> bool {
    forall|i: int, j: int|
        0 <= i < j < s.len() ==> lex_lt(#[trigger] s[i].0@, #[trigger] s[j].0@)
}

/// Every account trie entry holds a valid nibble path and a well-formed node.
pub open spec fn acct_entries_wf(s: Seq<(Nibbles, BranchNodeCompact)>) -> bool {
    forall|i: int|
        0 <= i < s.len() ==> nibbles_valid(#[trigger] s[i].0@) && s[i].1.wf()
}

/// The node stored under nibble path `k`, if any.
pub open spec fn acct_lookup(
    s: Seq<(Nibbles, BranchNodeCompact)>,
    k: Seq<u8>,
) -> Option<BranchNodeCompact>
    decreases s.len(),
{
    if s.len() == 0 {
        None
    } else if s[0].0@ == k {
        Some(s[0].1)
    } else {
        acct_lookup(s.skip(1), k)
    }
}

/// If no entry carries key `k`, the lookup misses.
pub proof fn lemma_acct_lookup_absent(s: Seq<(Nibbles, BranchNodeCompact)>, k: Seq<u8>)
    requires
        forall|i: int| 0 <= i < s.len() ==> (#[trigger] s[i].0)@ != k,
    ensures
        acct_lookup(s, k) is None,
    decreases s.len(),
{
    if s.len() > 0 {
        assert(forall|i: int|
            0 <= i < s.skip(1).len() ==> (#[trigger] s.skip(1)[i].0)@ == s[i + 1].0@);
        lemma_acct_lookup_absent(s.skip(1), k);
    }
}

/// If some entry carries key `k` and the keys are strictly sorted, the
/// lookup returns exactly that entry's node.
pub proof fn lemma_acct_lookup_present(
    s: Seq<(Nibbles, BranchNodeCompact)>,
    k: Seq<u8>,
    i: int,
)
    requires
        acct_entries_sorted(s),
        0 <= i < s.len(),
        s[i].0@ == k,
    ensures
        acct_lookup(s, k) == Some(s[i].1),
    decreases s.len(),
{
    if i == 0 {
    } else {
        assert(lex_lt(s[0].0@, s[i].0@));
        lemma_lex_lt_irrefl(s[0].0@);
        assert(s[0].0@ != k);
        assert(forall|a: int, b: int|
            0 <= a < b < s.skip(1).len() ==> lex_lt(
                #[trigger] s.skip(1)[a].0@,
                #[trigger] s.skip(1)[b].0@,
            ));
        lemma_acct_lookup_present(s.skip(1), k, i - 1);
    }
}

/// A hit has a witness: some row carries the key found by the lookup.
pub proof fn lemma_acct_lookup_exists(s: Seq<(Nibbles, BranchNodeCompact)>, k: Seq<u8>)
    requires
        acct_lookup(s, k) is Some,
    ensures
        exists|i: int| 0 <= i < s.len() && (#[trigger] s[i].0)@ == k,
    decreases s.len(),
{
    if s.len() > 0 && s[0].0@ != k {
        lemma_acct_lookup_exists(s.skip(1), k);
        let i = choose|i: int|
            0 <= i < s.skip(1).len() && (#[trigger] s.skip(1)[i].0)@ == k;
        assert(s[i + 1].0@ == k);
    }
}

/// The single ordered table of account-trie nodes, keyed by nibble path.
#[derive(Debug)]
pub struct AccountsTrieTable {
    /// The rows, sorted strictly by nibble path.
    pub entries: Vec<(Nibbles, BranchNodeCompact)>,
}

impl View for AccountsTrieTable {
    type V = Seq<(Nibbles, BranchNodeCompact)>;

    open spec fn view(&self) -> Seq<(Nibbles, BranchNodeCompact)> {
        self.entries@
    }
}

impl AccountsTrieTable {
    /// The table invariant: strictly sorted, well-formed rows.
    pub open spec fn wf(&self) -> bool {
        acct_entries_sorted(self@) && acct_entries_wf(self@)
    }

    /// An empty table.
    pub fn new() -> (r: AccountsTrieTable)
        ensures
            r@.len() == 0,
            r.wf(),
    {
        AccountsTrieTable { entries: Vec::new() }
    }

    /// Number of rows.
    pub fn len(&self) -> (r: usize)
        ensures
            r == self@.len(),
    {
        self.entries.len()
    }

    /// A copy of the row at position `i`.
    pub fn get(&self, i: usize) -> (r: (Nibbles, BranchNodeCompact))
        requires
            i < self@.len(),
        ensures
            r.0@ == self@[i as int].0@,
            node_matches(r.1, self@[i as int].1),
            self@[i as int].1.wf() ==> r.1.wf(),
    {
        let e = &self.entries[i];
        (e.0.clone(), e.1.clone())
    }

    /// Position of the first row whose key is not below `key`: every earlier
    /// row is strictly below, every row from it on is at or above.
    pub fn lower_bound(&self, key: &Nibbles) -> (r: usize)
        requires
            self.wf(),
        ensures
            r <= self@.len(),
            forall|i: int| 0 <= i < r ==> lex_lt(#[trigger] self@[i].0@, key@),
            forall|i: int| r <= i < self@.len() ==> lex_le(key@, #[trigger] self@[i].0@),
    {
        let n = self.entries.len();
        let mut i: usize = 0;
        while i < n
            invariant
                i <= n,
                n == self@.len(),
                self.wf(),
                forall|j: int| 0 <= j < i ==> lex_lt(#[trigger] self@[j].0@, key@),
            decreases n - i,
        {
            if !nibbles_lt(&self.entries[i].0, key) {
                proof {
                    let ki = self@[i as int].0@;
                    lemma_lex_lt_total(key@, ki);
                    assert forall|j: int| i <= j < self@.len() implies
                        lex_le(key@, #[trigger] self@[j].0@) by {
                        if j > i {
                            assert(lex_lt(ki, self@[j].0@));
                            if lex_lt(key@, ki) {
                                lemma_lex_lt_trans(key@, ki, self@[j].0@);
                            }
                        }
                    }
                }
                return i;
            }
            i += 1;
        }
        i
    }

    /// Insert the pair, replacing the node if the key is already present.
    /// Every other key keeps its binding.
    pub fn upsert(&mut self, key: Nibbles, node: BranchNodeCompact)
        requires
            old(self).wf(),
            nibbles_valid(key@),
            node.wf(),
        ensures
            final(self).wf(),
            acct_lookup(final(self)@, key@) == Some(node),
            forall|k: Seq<u8>|
                k != key@ ==> acct_lookup(final(self)@, k) == acct_lookup(old(self)@, k),
    {
        let ghost old_s = self@;
        let p = self.lower_bound(&key);
        let replace = p < self.entries.len() && nibbles_eq(&self.entries[p].0, &key);
        if replace {
            self.entries.set(p, (key, node));
        } else {
            self.entries.insert(p, (key, node));
        }
        proof {
            let s = self@;
            let pi = p as int;
            // sortedness of the updated table
            assert forall|i: int, j: int| 0 <= i < j < s.len() implies
                lex_lt(#[trigger] s[i].0@, #[trigger] s[j].0@) by {
                if replace {
                    if i == pi {
                        assert(lex_le(key@, old_s[j].0@));
                        assert(old_s[j].0@ != key@) by {
                            if old_s[j].0@ == old_s[pi].0@ {
                                lemma_lex_lt_irrefl(old_s[pi].0@);
                            }
                        }
                    } else if j == pi {
                        assert(lex_lt(old_s[i].0@, key@));
                    }
                } else {
                    if i == pi {
                        assert(old_s[pi].0@ != key@);
                        assert(lex_le(key@, old_s[pi].0@));
                        assert(lex_lt(key@, old_s[pi].0@));
                        if j - 1 > pi {
                            lemma_lex_lt_trans(key@, old_s[pi].0@, old_s[j - 1].0@);
                        }
                        assert(lex_lt(key@, old_s[j - 1].0@));
                    } else if j == pi {
                        assert(lex_lt(old_s[i].0@, key@));
                    } else if i < pi && j > pi {
                        assert(lex_lt(old_s[i].0@, old_s[j - 1].0@));
                    } else if i > pi {
                        assert(lex_lt(old_s[i - 1].0@, old_s[j - 1].0@));
                    }
                }
            }
            // well-formed rows
            assert forall|i: int| 0 <= i < s.len() implies
                nibbles_valid(#[trigger] s[i].0@) && s[i].1.wf() by {
                if i != pi {
                    if replace || i < pi {
                        assert(old_s[i].0@ == s[i].0@ && old_s[i].1 == s[i].1);
                    } else {
                        assert(old_s[i - 1].0@ == s[i].0@ && old_s[i - 1].1 == s[i].1);
                    }
                }
            }
            // the new binding
            lemma_acct_lookup_present(s, key@, pi);
            // all other bindings unchanged
            assert forall|k: Seq<u8>| k != key@ implies
                acct_lookup(s, k) == acct_lookup(old_s, k) by {
                if exists|w: int| 0 <= w < old_s.len() && (#[trigger] old_s[w].0)@ == k {
                    let w = choose|w: int|
                        0 <= w < old_s.len() && (#[trigger] old_s[w].0)@ == k;
                    lemma_acct_lookup_present(old_s, k, w);
                    if replace {
                        assert(w != pi);
                        lemma_acct_lookup_present(s, k, w);
                    } else {
                        if w < pi {
                            lemma_acct_lookup_present(s, k, w);
                        } else {
                            assert(s[w + 1].0@ == k);
                            lemma_acct_lookup_present(s, k, w + 1);
                        }
                    }
                } else {
                    assert(forall|w: int|
                        0 <= w < old_s.len() ==> (#[trigger] old_s[w].0)@ != k);
                    lemma_acct_lookup_absent(old_s, k);
                    assert forall|w: int| 0 <= w < s.len() implies
                        (#[trigger] s[w].0)@ != k by {
                        if w != pi {
                            if replace || w < pi {
                                assert(s[w].0@ == old_s[w].0@);
                            } else {
                                assert(s[w].0@ == old_s[w - 1].0@);
                            }
                        }
                    }
                    lemma_acct_lookup_absent(s, k);
                }
            }
        }
    }

    /// Remove the row at position `i`. Its key loses its binding; every
    /// other key keeps its own.
    pub fn remove_at(&mut self, i: usize)
        requires
            old(self).wf(),
            i < old(self)@.len(),
        ensures
            final(self).wf(),
            final(self)@.len() == old(self)@.len() - 1,
            acct_lookup(final(self)@, old(self)@[i as int].0@) is None,
            forall|k: Seq<u8>|
                k != old(self)@[i as int].0@ ==> acct_lookup(final(self)@, k) == acct_lookup(
                    old(self)@,
                    k,
                ),
    {
        let ghost old_s = self@;
        let ghost ki = self@[i as int].0@;
        self.entries.remove(i);
        proof {
            let s = self@;
            let pi = i as int;
            assert forall|a: int, b: int| 0 <= a < b < s.len() implies
                lex_lt(#[trigger] s[a].0@, #[trigger] s[b].0@) by {
                let oa = if a < pi { a } else { a + 1 };
                let ob = if b < pi { b } else { b + 1 };
                assert(s[a].0@ == old_s[oa].0@);
                assert(s[b].0@ == old_s[ob].0@);
            }
            assert forall|a: int| 0 <= a < s.len() implies
                nibbles_valid(#[trigger] s[a].0@) && s[a].1.wf() by {
                let oa = if a < pi { a } else { a + 1 };
                assert(s[a].0@ == old_s[oa].0@ && s[a].1 == old_s[oa].1);
            }
            assert forall|w: int| 0 <= w < s.len() implies (#[trigger] s[w].0)@ != ki by {
                let ow = if w < pi { w } else { w + 1 };
                assert(s[w].0@ == old_s[ow].0@);
                if old_s[ow].0@ == ki {
                    if ow < pi {
                        lemma_lex_lt_irrefl(ki);
                    } else {
                        lemma_lex_lt_irrefl(ki);
                    }
                }
            }
            lemma_acct_lookup_absent(s, ki);
            assert forall|k: Seq<u8>| k != ki implies
                acct_lookup(s, k) == acct_lookup(old_s, k) by {
                if exists|w: int| 0 <= w < old_s.len() && (#[trigger] old_s[w].0)@ == k {
                    let w = choose|w: int|
                        0 <= w < old_s.len() && (#[trigger] old_s[w].0)@ == k;
                    lemma_acct_lookup_present(old_s, k, w);
                    if w < pi {
                        lemma_acct_lookup_present(s, k, w);
                    } else {
                        assert(w != pi);
                        assert(s[w - 1].0@ == k);
                        lemma_acct_lookup_present(s, k, w - 1);
                    }
                } else {
                    assert(forall|w: int|
                        0 <= w < old_s.len() ==> (#[trigger] old_s[w].0)@ != k);
                    lemma_acct_lookup_absent(old_s, k);
                    assert forall|w: int| 0 <= w < s.len() implies
                        (#[trigger] s[w].0)@ != k by {
                        let ow = if w < pi { w } else { w + 1 };
                        assert(s[w].0@ == old_s[ow].0@);
                    }
                    lemma_acct_lookup_absent(s, k);
                }
            }
        }
    }
}

/// Strict order over composite storage-trie keys: by outer key (hashed
/// account address) first, then by nibble sub-key within a group.
pub open spec fn dup_lt(a1: Seq<u8>, s1: Seq<u8>, a2: Seq<u8>, s2: Seq<u8>) -> bool {
    lex_lt(a1, a2) || (a1 == a2 && lex_lt(s1, s2))
}

/// The composite order is transitive.
pub proof fn lemma_dup_lt_trans(
    a1: Seq<u8>, s1: Seq<u8>,
    a2: Seq<u8>, s2: Seq<u8>,
    a3: Seq<u8>, s3: Seq<u8>,
)
    requires
        dup_lt(a1, s1, a2, s2),
        dup_lt(a2, s2, a3, s3),
    ensures
        dup_lt(a1, s1, a3, s3),
{
    if lex_lt(a1, a2) && lex_lt(a2, a3) {
        lemma_lex_lt_trans(a1, a2, a3);
    } else if a1 == a2 && a2 == a3 {
        lemma_lex_lt_trans(s1, s2, s3);
    }
}

/// Entries of the storage-trie table are sorted strictly by composite key.
pub open spec fn dup_entries_sorted(s: Seq<(B256, StorageTrieEntry)>) -> bool {
    forall|i: int, j: int|
        0 <= i < j < s.len() ==> dup_lt(
            #[trigger] s[i].0@, s[i].1.nibbles@,
            #[trigger] s[j].0@, s[j].1.nibbles@,
        )
}

/// Every storage-trie row is well-formed: a 32-byte outer key and a valid
/// entry.
pub open spec fn dup_entries_wf(s: Seq<(B256, StorageTrieEntry)>) -> bool {
    forall|i: int|
        0 <= i < s.len() ==> (#[trigger] s[i].0).wf() && s[i].1.wf()
}

/// The node stored under account `a` and sub-key `sub`, if any.
pub open spec fn dup_lookup(
    s: Seq<(B256, StorageTrieEntry)>,
    a: Seq<u8>,
    sub: Seq<u8>,
) -> Option<BranchNodeCompact>
    decreases s.len(),
{
    if s.len() == 0 {
        None
    } else if s[0].0@ == a && s[0].1.nibbles@ == sub {
        Some(s[0].1.node)
    } else {
        dup_lookup(s.skip(1), a, sub)
    }
}

/// If no row carries the composite key, the lookup misses.
pub proof fn lemma_dup_lookup_absent(s: Seq<(B256, StorageTrieEntry)>, a: Seq<u8>, sub: Seq<u8>)
    requires
        forall|i: int|
            0 <= i < s.len() ==> !((#[trigger] s[i].0)@ == a && s[i].1.nibbles@ == sub),
    ensures
        dup_lookup(s, a, sub) is None,
    decreases s.len(),
{
    if s.len() > 0 {
        assert(forall|i: int|
            0 <= i < s.skip(1).len() ==> #[trigger] s.skip(1)[i] == s[i + 1]);
        lemma_dup_lookup_absent(s.skip(1), a, sub);
    }
}

/// If no row has outer key `a`, every lookup under `a` misses.
pub proof fn lemma_dup_lookup_absent_outer(s: Seq<(B256, StorageTrieEntry)>, a: Seq<u8>)
    requires
        forall|i: int| 0 <= i < s.len() ==> (#[trigger] s[i].0)@ != a,
    ensures
        forall|sub: Seq<u8>| #[trigger] dup_lookup(s, a, sub) is None,
{
    assert forall|sub: Seq<u8>| #[trigger] dup_lookup(s, a, sub) is None by {
        lemma_dup_lookup_absent(s, a, sub);
    }
}

/// If some row carries the composite key and the table is strictly sorted,
/// the lookup returns exactly that row's node.
pub proof fn lemma_dup_lookup_present(
    s: Seq<(B256, StorageTrieEntry)>,
    a: Seq<u8>,
    sub: Seq<u8>,
    i: int,
)
    requires
        dup_entries_sorted(s),
        0 <= i < s.len(),
        s[i].0@ == a,
        s[i].1.nibbles@ == sub,
    ensures
        dup_lookup(s, a, sub) == Some(s[i].1.node),
    decreases s.len(),
{
    if i == 0 {
    } else {
        assert(dup_lt(s[0].0@, s[0].1.nibbles@, a, sub));
        if s[0].0@ == a && s[0].1.nibbles@ == sub {
            lemma_lex_lt_irrefl(a);
            lemma_lex_lt_irrefl(sub);
            assert(false);
        }
        assert(forall|x: int|
            0 <= x < s.skip(1).len() ==> #[trigger] s.skip(1)[x] == s[x + 1]);
        lemma_dup_lookup_present(s.skip(1), a, sub, i - 1);
    }
}

/// A hit has a witness: some row carries the composite key found by the
/// lookup.
pub proof fn lemma_dup_lookup_exists(s: Seq<(B256, StorageTrieEntry)>, a: Seq<u8>, sub: Seq<u8>)
    requires
        dup_lookup(s, a, sub) is Some,
    ensures
        exists|i: int|
            0 <= i < s.len() && (#[trigger] s[i].0)@ == a && s[i].1.nibbles@ == sub,
    decreases s.len(),
{
    if s.len() > 0 && !(s[0].0@ == a && s[0].1.nibbles@ == sub) {
        lemma_dup_lookup_exists(s.skip(1), a, sub);
        let i = choose|i: int|
            0 <= i < s.skip(1).len() && (#[trigger] s.skip(1)[i].0)@ == a
                && s.skip(1)[i].1.nibbles@ == sub;
        assert(s.skip(1)[i] == s[i + 1]);
        assert(s[i + 1].0@ == a && s[i + 1].1.nibbles@ == sub);
    }
}

/// The storage-trie table: nodes of every account's storage trie, grouped by
/// hashed account address and ordered by nibble sub-key within each group.
#[derive(Debug)]
pub struct StoragesTrieTable {
    /// The rows, sorted strictly by (outer key, sub-key).
    pub entries: Vec<(B256, StorageTrieEntry)>,
}

impl View for StoragesTrieTable {
    type V = Seq<(B256, StorageTrieEntry)>;

    open spec fn view(&self) -> Seq<(B256, StorageTrieEntry)> {
        self.entries@
    }
}

impl StoragesTrieTable {
    /// The table invariant: strictly sorted, well-formed rows.
    pub open spec fn wf(&self) -> bool {
        dup_entries_sorted(self@) && dup_entries_wf(self@)
    }

    /// An empty table.
    pub fn new() -> (r: StoragesTrieTable)
        ensures
            r@.len() == 0,
            r.wf(),
    {
        StoragesTrieTable { entries: Vec::new() }
    }

    /// Number of rows.
    pub fn len(&self) -> (r: usize)
        ensures
            r == self@.len(),
    {
        self.entries.len()
    }

    /// A copy of the row at position `i`.
    pub fn get(&self, i: usize) -> (r: (B256, StorageTrieEntry))
        requires
            i < self@.len(),
        ensures
            r.0@ == self@[i as int].0@,
            r.1.nibbles@ == self@[i as int].1.nibbles@,
            node_matches(r.1.node, self@[i as int].1.node),
            self@[i as int].0.wf() ==> r.0.wf(),
            self@[i as int].1.wf() ==> r.1.wf(),
    {
        let e = &self.entries[i];
        (e.0.clone(), e.1.clone())
    }

    /// Position of the first row whose composite key is not below
    /// `(a, sub)`.
    pub fn lower_bound(&self, a: &B256, sub: &Nibbles) -> (r: usize)
        requires
            self.wf(),
        ensures
            r <= self@.len(),
            forall|i: int|
                0 <= i < r ==> dup_lt(#[trigger] self@[i].0@, self@[i].1.nibbles@, a@, sub@),
            forall|i: int|
                r <= i < self@.len() ==> !dup_lt(
                    #[trigger] self@[i].0@,
                    self@[i].1.nibbles@,
                    a@,
                    sub@,
                ),
    {
        let n = self.entries.len();
        let mut i: usize = 0;
        while i < n
            invariant
                i <= n,
                n == self@.len(),
                self.wf(),
                forall|j: int|
                    0 <= j < i ==> dup_lt(#[trigger] self@[j].0@, self@[j].1.nibbles@, a@, sub@),
            decreases n - i,
        {
            let e = &self.entries[i];
            let before = if b256_lt(&e.0, a) {
                true
            } else if b256_eq(&e.0, a) {
                nibbles_lt(&e.1.nibbles, sub)
            } else {
                false
            };
            if !before {
                proof {
                    let ia = self@[i as int].0@;
                    let is = self@[i as int].1.nibbles@;
                    assert forall|j: int| i < j < self@.len() implies !dup_lt(
                        #[trigger] self@[j].0@,
                        self@[j].1.nibbles@,
                        a@,
                        sub@,
                    ) by {
                        if dup_lt(self@[j].0@, self@[j].1.nibbles@, a@, sub@) {
                            assert(dup_lt(ia, is, self@[j].0@, self@[j].1.nibbles@));
                            lemma_dup_lt_trans(
                                ia, is,
                                self@[j].0@, self@[j].1.nibbles@,
                                a@, sub@,
                            );
                        }
                    }
                }
                return i;
            }
            i += 1;
        }
        i
    }

    /// Insert the pair, replacing the node if the composite key is already
    /// present. Every other composite key keeps its binding.
    #[verifier::rlimit(60)]
    pub fn upsert(&mut self, a: B256, entry: StorageTrieEntry)
        requires
            old(self).wf(),
            a.wf(),
            entry.wf(),
        ensures
            final(self).wf(),
            dup_lookup(final(self)@, a@, entry.nibbles@) == Some(entry.node),
            forall|a2: Seq<u8>, s2: Seq<u8>|
                !(a2 == a@ && s2 == entry.nibbles@) ==> dup_lookup(final(self)@, a2, s2)
                    == dup_lookup(old(self)@, a2, s2),
    {
        let ghost old_s = self@;
        let p = self.lower_bound(&a, &entry.nibbles);
        let replace = p < self.entries.len() && b256_eq(&self.entries[p].0, &a) && nibbles_eq(
            &self.entries[p].1.nibbles,
            &entry.nibbles,
        );
        let ghost ka = a@;
        let ghost ks = entry.nibbles@;
        if replace {
            self.entries.set(p, (a, entry));
        } else {
            self.entries.insert(p, (a, entry));
        }
        proof {
            let s = self@;
            let pi = p as int;
            let node = s[pi].1.node;
            assert forall|i: int, j: int| 0 <= i < j < s.len() implies dup_lt(
                #[trigger] s[i].0@, s[i].1.nibbles@,
                #[trigger] s[j].0@, s[j].1.nibbles@,
            ) by {
                if replace {
                    if i == pi {
                        assert(!dup_lt(old_s[j].0@, old_s[j].1.nibbles@, ka, ks));
                        if !dup_lt(ka, ks, old_s[j].0@, old_s[j].1.nibbles@) {
                            lemma_lex_lt_total(ka, old_s[j].0@);
                            lemma_lex_lt_total(ks, old_s[j].1.nibbles@);
                            assert(old_s[j].0@ == ka && old_s[j].1.nibbles@ == ks);
                            assert(dup_lt(old_s[pi].0@, old_s[pi].1.nibbles@, old_s[j].0@,
                                old_s[j].1.nibbles@));
                            lemma_lex_lt_irrefl(ka);
                            lemma_lex_lt_irrefl(ks);
                        }
                    } else if j == pi {
                        assert(dup_lt(old_s[i].0@, old_s[i].1.nibbles@, ka, ks));
                    }
                } else {
                    if i == pi {
                        let oj = j - 1;
                        assert(s[j].0@ == old_s[oj].0@ && s[j].1 == old_s[oj].1);
                        assert(!dup_lt(old_s[oj].0@, old_s[oj].1.nibbles@, ka, ks));
                        if !dup_lt(ka, ks, old_s[oj].0@, old_s[oj].1.nibbles@) {
                            lemma_lex_lt_total(ka, old_s[oj].0@);
                            lemma_lex_lt_total(ks, old_s[oj].1.nibbles@);
                            assert(old_s[oj].0@ == ka && old_s[oj].1.nibbles@ == ks);
                            assert(oj >= pi);
                            if oj == pi {
                                assert(!replace);
                                assert(false);
                            } else {
                                assert(dup_lt(old_s[pi].0@, old_s[pi].1.nibbles@, ka, ks));
                                assert(!dup_lt(old_s[pi].0@, old_s[pi].1.nibbles@, ka, ks));
                            }
                        }
                    } else if j == pi {
                        assert(dup_lt(old_s[i].0@, old_s[i].1.nibbles@, ka, ks));
                    } else if i < pi && j > pi {
                        assert(s[i] == old_s[i] && s[j] == old_s[j - 1]);
                        if j - 1 == i {
                            assert(false);
                        }
                    } else if i > pi {
                        assert(s[i] == old_s[i - 1] && s[j] == old_s[j - 1]);
                    }
                }
            }
            assert forall|i: int| 0 <= i < s.len() implies
                (#[trigger] s[i].0).wf() && s[i].1.wf() by {
                if i != pi {
                    if replace || i < pi {
                        assert(s[i] == old_s[i]);
                    } else {
                        assert(s[i] == old_s[i - 1]);
                    }
                }
                assert(s[i].0.wf());
                assert(s[i].1.wf());
            }
            lemma_dup_lookup_present(s, ka, ks, pi);
            assert forall|a2: Seq<u8>, s2: Seq<u8>| !(a2 == ka && s2 == ks) implies
                dup_lookup(s, a2, s2) == dup_lookup(old_s, a2, s2) by {
                if exists|w: int|
                    0 <= w < old_s.len() && (#[trigger] old_s[w].0)@ == a2
                        && old_s[w].1.nibbles@ == s2 {
                    let w = choose|w: int|
                        0 <= w < old_s.len() && (#[trigger] old_s[w].0)@ == a2
                            && old_s[w].1.nibbles@ == s2;
                    lemma_dup_lookup_present(old_s, a2, s2, w);
                    if replace {
                        assert(w != pi);
                        assert(s[w] == old_s[w]);
                        lemma_dup_lookup_present(s, a2, s2, w);
                    } else {
                        if w < pi {
                            assert(s[w] == old_s[w]);
                            lemma_dup_lookup_present(s, a2, s2, w);
                        } else {
                            assert(s[w + 1] == old_s[w]);
                            lemma_dup_lookup_present(s, a2, s2, w + 1);
                        }
                    }
                } else {
                    assert(forall|w: int|
                        0 <= w < old_s.len() ==> !((#[trigger] old_s[w].0)@ == a2
                            && old_s[w].1.nibbles@ == s2));
                    lemma_dup_lookup_absent(old_s, a2, s2);
                    assert forall|w: int| 0 <= w < s.len() implies
                        !((#[trigger] s[w].0)@ == a2 && s[w].1.nibbles@ == s2) by {
                        if w != pi {
                            if replace || w < pi {
                                assert(s[w] == old_s[w]);
                            } else {
                                assert(s[w] == old_s[w - 1]);
                            }
                        }
                    }
                    lemma_dup_lookup_absent(s, a2, s2);
                }
            }
        }
    }

    /// Remove the row at position `i`. Its composite key loses its binding;
    /// every other composite key keeps its own.
    #[verifier::rlimit(60)]
    pub fn remove_at(&mut self, i: usize)
        requires
            old(self).wf(),
            i < old(self)@.len(),
        ensures
            final(self).wf(),
            final(self)@ == old(self)@.remove(i as int),
            dup_lookup(
                final(self)@,
                old(self)@[i as int].0@,
                old(self)@[i as int].1.nibbles@,
            ) is None,
            forall|a2: Seq<u8>, s2: Seq<u8>|
                !(a2 == old(self)@[i as int].0@ && s2 == old(self)@[i as int].1.nibbles@)
                    ==> dup_lookup(final(self)@, a2, s2) == dup_lookup(old(self)@, a2, s2),
    {
        let ghost old_s = self@;
        let ghost ka = self@[i as int].0@;
        let ghost ks = self@[i as int].1.nibbles@;
        self.entries.remove(i);
        proof {
            let s = self@;
            let pi = i as int;
            assert forall|a: int, b: int| 0 <= a < b < s.len() implies dup_lt(
                #[trigger] s[a].0@, s[a].1.nibbles@,
                #[trigger] s[b].0@, s[b].1.nibbles@,
            ) by {
                let oa = if a < pi { a } else { a + 1 };
                let ob = if b < pi { b } else { b + 1 };
                assert(s[a] == old_s[oa] && s[b] == old_s[ob]);
            }
            assert forall|a: int| 0 <= a < s.len() implies
                (#[trigger] s[a].0).wf() && s[a].1.wf() by {
                let oa = if a < pi { a } else { a + 1 };
                assert(s[a] == old_s[oa]);
                assert(s[a].0.wf());
                assert(s[a].1.wf());
            }
            assert forall|w: int| 0 <= w < s.len() implies
                !((#[trigger] s[w].0)@ == ka && s[w].1.nibbles@ == ks) by {
                let ow = if w < pi { w } else { w + 1 };
                assert(s[w] == old_s[ow]);
                if old_s[ow].0@ == ka && old_s[ow].1.nibbles@ == ks {
                    if ow < pi {
                        assert(dup_lt(old_s[ow].0@, old_s[ow].1.nibbles@, ka, ks));
                        lemma_lex_lt_irrefl(ka);
                        lemma_lex_lt_irrefl(ks);
                    } else {
                        assert(dup_lt(ka, ks, old_s[ow].0@, old_s[ow].1.nibbles@));
                        lemma_lex_lt_irrefl(ka);
                        lemma_lex_lt_irrefl(ks);
                    }
                }
            }
            lemma_dup_lookup_absent(s, ka, ks);
            assert forall|a2: Seq<u8>, s2: Seq<u8>| !(a2 == ka && s2 == ks) implies
                dup_lookup(s, a2, s2) == dup_lookup(old_s, a2, s2) by {
                if exists|w: int|
                    0 <= w < old_s.len() && (#[trigger] old_s[w].0)@ == a2
                        && old_s[w].1.nibbles@ == s2 {
                    let w = choose|w: int|
                        0 <= w < old_s.len() && (#[trigger] old_s[w].0)@ == a2
                            && old_s[w].1.nibbles@ == s2;
                    lemma_dup_lookup_present(old_s, a2, s2, w);
                    if w < pi {
                        lemma_dup_lookup_present(s, a2, s2, w);
                    } else {
                        assert(w != pi);
                        assert(s[w - 1] == old_s[w]);
                        lemma_dup_lookup_present(s, a2, s2, w - 1);
                    }
                } else {
                    assert(forall|w: int|
                        0 <= w < old_s.len() ==> !((#[trigger] old_s[w].0)@ == a2
                            && old_s[w].1.nibbles@ == s2));
                    lemma_dup_lookup_absent(old_s, a2, s2);
                    assert forall|w: int| 0 <= w < s.len() implies
                        !((#[trigger] s[w].0)@ == a2 && s[w].1.nibbles@ == s2) by {
                        let ow = if w < pi { w } else { w + 1 };
                        assert(s[w] == old_s[ow]);
                    }
                    lemma_dup_lookup_absent(s, a2, s2);
                }
            }
        }
    }

    /// Remove every row of account `a`'s group. Bindings of every other
    /// account are untouched.
    #[verifier::rlimit(60)]
    pub fn delete_group(&mut self, a: &B256)
        requires
            old(self).wf(),
        ensures
            final(self).wf(),
            forall|sub: Seq<u8>| #[trigger] dup_lookup(final(self)@, a@, sub) is None,
            forall|a2: Seq<u8>, s2: Seq<u8>|
                a2 != a@ ==> dup_lookup(final(self)@, a2, s2) == dup_lookup(old(self)@, a2, s2),
            final(self)@.len() <= old(self)@.len(),
            (exists|i: int| 0 <= i < old(self)@.len() && (#[trigger] old(self)@[i].0)@ == a@)
                ==> final(self)@.len() < old(self)@.len(),
    {
        let ghost orig = self@;
        let empty_sub = Nibbles::empty();
        let lo = self.lower_bound(&a, &empty_sub);
        proof {
            assert forall|j: int| 0 <= j < lo implies lex_lt(#[trigger] self@[j].0@, a@) by {
                assert(dup_lt(self@[j].0@, self@[j].1.nibbles@, a@, Seq::<u8>::empty()));
            }
        }
        let mut go = lo < self.entries.len() && b256_eq(&self.entries[lo].0, a);
        while go
            invariant
                go ==> lo < self@.len() && self@[lo as int].0@ == a@,
                !go ==> lo == self@.len() || self@[lo as int].0@ != a@,
                self.wf(),
                lo <= self@.len(),
                self@.len() <= orig.len(),
                self@ == orig || self@.len() < orig.len(),
                forall|j: int| 0 <= j < lo ==> lex_lt(#[trigger] self@[j].0@, a@),
                forall|j: int|
                    lo <= j < self@.len() ==> !dup_lt(
                        #[trigger] self@[j].0@,
                        self@[j].1.nibbles@,
                        a@,
                        Seq::<u8>::empty(),
                    ),
                forall|a2: Seq<u8>, s2: Seq<u8>|
                    a2 != a@ ==> dup_lookup(self@, a2, s2) == dup_lookup(orig, a2, s2),
            decreases self@.len() - lo,
        {
            let ghost before = self@;
            self.remove_at(lo);
            proof {
                assert forall|j: int| lo <= j < self@.len() implies !dup_lt(
                    #[trigger] self@[j].0@,
                    self@[j].1.nibbles@,
                    a@,
                    Seq::<u8>::empty(),
                ) by {
                    assert(self@[j] == before[j + 1]);
                }
                assert forall|j: int| 0 <= j < lo implies
                    lex_lt(#[trigger] self@[j].0@, a@) by {
                    assert(self@[j] == before[j]);
                }
            }
            go = lo < self.entries.len() && b256_eq(&self.entries[lo].0, a);
        }
        proof {
            assert forall|w: int| 0 <= w < self@.len() implies
                (#[trigger] self@[w].0)@ != a@ by {
                if w < lo && self@[w].0@ == a@ {
                    lemma_lex_lt_irrefl(a@);
                }
                if w >= lo && self@[w].0@ == a@ {
                    // row `lo` is the least remaining row at or above the
                    // group, and the loop stopped because it is not in it
                    let la = self@[lo as int].0@;
                    assert(la != a@);
                    assert(!dup_lt(la, self@[lo as int].1.nibbles@, a@, Seq::<u8>::empty()));
                    assert(!lex_lt(la, a@));
                    lemma_lex_lt_total(la, a@);
                    assert(lex_lt(a@, la));
                    if w > lo {
                        assert(dup_lt(la, self@[lo as int].1.nibbles@, self@[w].0@,
                            self@[w].1.nibbles@));
                        if la == self@[w].0@ {
                        } else {
                            assert(lex_lt(la, a@));
                        }
                        lemma_lex_lt_asymm(a@, la);
                    }
                }
            }
            lemma_dup_lookup_absent_outer(self@, a@);
            if exists|i: int| 0 <= i < orig.len() && (#[trigger] orig[i].0)@ == a@ {
                if self@ == orig {
                    let i = choose|i: int| 0 <= i < orig.len() && (#[trigger] orig[i].0)@ == a@;
                    assert(self@[i].0@ == a@);
                }
            }
        }
    }
}

} // verus!
