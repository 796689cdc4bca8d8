//! The trie cursor protocol: read and read-write cursors over the account
//! trie and over per-account storage tries, and the factory that hands them
//! out for one transaction.
//!
//! Cursors carry only their own position; every operation takes the table it
//! navigates, so one transaction can hand out any number of cursors. The
//! account trie has no duplicate-key grouping, so its cursor offers no
//! duplicate deletion at all: that misuse is unrepresentable rather than a
//! runtime failure.

use vstd::prelude::*;
use crate::nibbles::{Nibbles, nibbles_valid, nibbles_eq, lex_lt, lex_le, lemma_lex_lt_asymm,
    lemma_lex_lt_total, lemma_lex_lt_irrefl};
use crate::node::{B256, BranchNodeCompact, StorageTrieEntry, TrieKey, b256_eq, node_matches};
use crate::store::{
    AccountsTrieTable, StoragesTrieTable, DatabaseError, acct_lookup, dup_lookup, dup_lt,
    lemma_acct_lookup_present, lemma_acct_lookup_absent, lemma_acct_lookup_exists,
    lemma_dup_lookup_present, lemma_dup_lookup_exists,
};
use crate::hashed::{HashedAccountsTable, HashedStoragesTable};

verus! {

/// A cursor over the account trie: one ordered table keyed by nibble path.
#[derive(Debug)]
pub struct DatabaseAccountTrieCursor {
    /// Nibble path of the entry the cursor last positioned on.
    pub position: Option<Nibbles>,
}

impl DatabaseAccountTrieCursor {
    /// The cursor's logical position.
    pub open spec fn pos(&self) -> Option<Seq<u8>> {
        match self.position {
            Some(ref p) => Some(p@),
            None => None,
        }
    }

    /// Create a new account trie cursor, not yet positioned.
    pub fn new() -> (r: DatabaseAccountTrieCursor)
        ensures
            r.pos() is None,
    {
        DatabaseAccountTrieCursor { position: None }
    }

    /// Seeks an exact match for the provided key in the account trie:
    /// exactly the stored binding of that key, or nothing.
    pub fn seek_exact(&mut self, table: &AccountsTrieTable, key: Nibbles) -> (r: Result<
        Option<(Nibbles, BranchNodeCompact)>,
        DatabaseError,
    >)
        requires
            table.wf(),
        ensures
            r is Ok,
            (r->Ok_0 is Some <==> acct_lookup(table@, key@) is Some),
            r->Ok_0 is Some ==> {
                let e = r->Ok_0->0;
                e.0@ == key@ && node_matches(e.1, acct_lookup(table@, key@)->0)
            },
            r->Ok_0 is Some ==> final(self).pos() == Some(key@),
            r->Ok_0 is None ==> final(self).pos() is None,
    {
        let p = table.lower_bound(&key);
        if p < table.len() {
            let e = table.get(p);
            if nibbles_eq(&e.0, &key) {
                proof {
                    lemma_acct_lookup_present(table@, key@, p as int);
                }
                self.position = Some(e.0.clone());
                return Ok(Some(e));
            }
        }
        proof {
            assert forall|i: int| 0 <= i < table@.len() implies
                (#[trigger] table@[i].0)@ != key@ by {
                if i < p {
                    lemma_lex_lt_irrefl(key@);
                } else {
                    if table@[i].0@ == key@ {
                        if i > p {
                            assert(lex_le(key@, table@[p as int].0@));
                            assert(lex_lt(table@[p as int].0@, table@[i].0@));
                            lemma_lex_lt_irrefl(key@);
                            lemma_lex_lt_asymm(key@, table@[p as int].0@);
                        }
                    }
                }
            }
            lemma_acct_lookup_absent(table@, key@);
        }
        self.position = None;
        Ok(None)
    }

    /// Seeks the first account-trie entry whose key is at or above the
    /// provided key: the smallest stored key `>=` the given one.
    pub fn seek(&mut self, table: &AccountsTrieTable, key: Nibbles) -> (r: Result<
        Option<(Nibbles, BranchNodeCompact)>,
        DatabaseError,
    >)
        requires
            table.wf(),
        ensures
            r is Ok,
            r->Ok_0 is None ==> forall|i: int|
                0 <= i < table@.len() ==> lex_lt(#[trigger] table@[i].0@, key@),
            r->Ok_0 is Some ==> {
                let e = r->Ok_0->0;
                &&& acct_lookup(table@, e.0@) is Some
                &&& node_matches(e.1, acct_lookup(table@, e.0@)->0)
                &&& lex_le(key@, e.0@)
                &&& forall|i: int|
                    0 <= i < table@.len() && lex_le(key@, #[trigger] table@[i].0@)
                        ==> lex_le(e.0@, table@[i].0@)
            },
            r->Ok_0 is Some ==> final(self).pos() == Some((r->Ok_0->0).0@),
            r->Ok_0 is None ==> final(self).pos() is None,
    {
        let p = table.lower_bound(&key);
        if p < table.len() {
            let e = table.get(p);
            proof {
                lemma_acct_lookup_present(table@, e.0@, p as int);
                assert forall|i: int|
                    0 <= i < table@.len() && lex_le(key@, #[trigger] table@[i].0@) implies
                    lex_le(e.0@, table@[i].0@) by {
                    if i < p {
                        assert(lex_lt(table@[i].0@, key@));
                        if lex_lt(key@, table@[i].0@) {
                            lemma_lex_lt_asymm(key@, table@[i].0@);
                        }
                    } else if i > p {
                        assert(lex_lt(table@[p as int].0@, table@[i].0@));
                    }
                }
            }
            self.position = Some(e.0.clone());
            return Ok(Some(e));
        }
        self.position = None;
        Ok(None)
    }

    /// The logical key of the entry the cursor last positioned on.
    pub fn current(&self) -> (r: Result<Option<TrieKey>, DatabaseError>)
        ensures
            r is Ok,
            (r->Ok_0 is Some <==> self.pos() is Some),
            r->Ok_0 is Some ==> (r->Ok_0->0 matches TrieKey::AccountNode(p) && p@ == self.pos()->0),
    {
        match &self.position {
            Some(p) => Ok(Some(TrieKey::AccountNode(p.clone()))),
            None => Ok(None),
        }
    }

    /// Store a node under the key, replacing any node already there. Every
    /// other key keeps its binding; the cursor is left on the written entry.
    pub fn upsert(&mut self, table: &mut AccountsTrieTable, key: Nibbles, node: BranchNodeCompact)
        -> (r: Result<(), DatabaseError>)
        requires
            old(table).wf(),
            nibbles_valid(key@),
            node.wf(),
        ensures
            r is Ok,
            final(table).wf(),
            acct_lookup(final(table)@, key@) == Some(node),
            forall|k: Seq<u8>|
                k != key@ ==> acct_lookup(final(table)@, k) == acct_lookup(old(table)@, k),
            final(self).pos() == Some(key@),
    {
        self.position = Some(key.clone());
        table.upsert(key, node);
        Ok(())
    }

    /// Remove the entry the cursor last positioned on. Its key loses its
    /// binding; every other key keeps its own.
    pub fn delete_current(&mut self, table: &mut AccountsTrieTable) -> (r: Result<
        (),
        DatabaseError,
    >)
        requires
            old(table).wf(),
            old(self).pos() is Some,
            acct_lookup(old(table)@, old(self).pos()->0) is Some,
        ensures
            r is Ok,
            final(table).wf(),
            acct_lookup(final(table)@, old(self).pos()->0) is None,
            forall|k: Seq<u8>|
                k != old(self).pos()->0 ==> acct_lookup(final(table)@, k) == acct_lookup(
                    old(table)@,
                    k,
                ),
            final(self).pos() is None,
    {
        let key = match &self.position {
            Some(p) => p.clone(),
            None => Nibbles::empty(),
        };
        let p = table.lower_bound(&key);
        proof {
            lemma_acct_lookup_exists(old(table)@, key@);
            let w = choose|w: int|
                0 <= w < table@.len() && (#[trigger] table@[w].0)@ == key@;
            if w < p {
                lemma_lex_lt_irrefl(key@);
            } else if w > p {
                assert(lex_le(key@, table@[p as int].0@));
                assert(lex_lt(table@[p as int].0@, table@[w].0@));
                lemma_lex_lt_irrefl(key@);
                lemma_lex_lt_asymm(key@, table@[p as int].0@);
            }
            assert(table@[p as int].0@ == key@);
        }
        table.remove_at(p);
        self.position = None;
        Ok(())
    }
}

/// Ordering invariant of the account trie: whatever set of pairs was
/// inserted, walking the table from the beginning yields entries in
/// strictly increasing nibble-lexicographic key order. The other half of
/// the invariant is [`DatabaseAccountTrieCursor::seek`]'s own contract: it
/// returns the smallest stored key at or above the requested one.
pub proof fn lemma_account_walk_ordered(table: AccountsTrieTable)
    requires
        table.wf(),
    ensures
        forall|i: int, j: int|
            0 <= i < j < table@.len() ==> lex_lt(
                #[trigger] table@[i].0@,
                #[trigger] table@[j].0@,
            ),
{
}

/// Ordering invariant of the storage tries: walking the whole table yields
/// entries grouped by hashed account address and ordered by nibble sub-key
/// within each group, in strictly increasing composite-key order.
pub proof fn lemma_storage_walk_ordered(table: StoragesTrieTable)
    requires
        table.wf(),
    ensures
        forall|i: int, j: int|
            0 <= i < j < table@.len() ==> dup_lt(
                #[trigger] table@[i].0@, table@[i].1.nibbles@,
                #[trigger] table@[j].0@, table@[j].1.nibbles@,
            ),
{
}

/// A cursor over one account's storage trie, bound to the account's hashed
/// address at construction. Seeks are scoped to that account's duplicate-key
/// group.
#[derive(Debug)]
pub struct DatabaseStorageTrieCursor {
    /// Hashed address used for cursor positioning.
    pub hashed_address: B256,
    /// Nibble sub-key of the entry the cursor last positioned on.
    pub position: Option<Nibbles>,
}

impl DatabaseStorageTrieCursor {
    /// The cursor's logical position inside the bound group.
    pub open spec fn pos(&self) -> Option<Seq<u8>> {
        match self.position {
            Some(ref p) => Some(p@),
            None => None,
        }
    }

    /// Create a new storage trie cursor bound to `hashed_address`.
    pub fn new(hashed_address: B256) -> (r: DatabaseStorageTrieCursor)
        ensures
            r.hashed_address@ == hashed_address@,
            r.pos() is None,
    {
        DatabaseStorageTrieCursor { hashed_address, position: None }
    }

    /// Seeks the first sub-key at or above the given one inside the bound
    /// account's group: the smallest stored sub-key `>=` the given one, and
    /// nothing from any other account's group.
    pub fn seek(&mut self, table: &StoragesTrieTable, key: Nibbles) -> (r: Result<
        Option<(Nibbles, BranchNodeCompact)>,
        DatabaseError,
    >)
        requires
            table.wf(),
        ensures
            r is Ok,
            r->Ok_0 is None ==> forall|i: int|
                0 <= i < table@.len() && (#[trigger] table@[i].0)@ == old(self).hashed_address@
                    ==> lex_lt(table@[i].1.nibbles@, key@),
            r->Ok_0 is Some ==> {
                let e = r->Ok_0->0;
                &&& dup_lookup(table@, old(self).hashed_address@, e.0@) is Some
                &&& node_matches(e.1, dup_lookup(table@, old(self).hashed_address@, e.0@)->0)
                &&& lex_le(key@, e.0@)
                &&& forall|i: int|
                    0 <= i < table@.len() && (#[trigger] table@[i].0)@ == old(
                        self,
                    ).hashed_address@ && lex_le(key@, table@[i].1.nibbles@) ==> lex_le(
                        e.0@,
                        table@[i].1.nibbles@,
                    )
            },
            r->Ok_0 is Some ==> final(self).pos() == Some((r->Ok_0->0).0@),
            r->Ok_0 is None ==> final(self).pos() is None,
            final(self).hashed_address@ == old(self).hashed_address@,
    {
        let ghost a = self.hashed_address@;
        let p = table.lower_bound(&self.hashed_address, &key);
        if p < table.len() {
            let e = table.get(p);
            if b256_eq(&e.0, &self.hashed_address) {
                proof {
                    let ep = table@[p as int];
                    assert(!dup_lt(ep.0@, ep.1.nibbles@, a, key@));
                    assert(!lex_lt(ep.1.nibbles@, key@));
                    lemma_lex_lt_total(key@, ep.1.nibbles@);
                    lemma_dup_lookup_present(table@, a, ep.1.nibbles@, p as int);
                    assert forall|i: int|
                        0 <= i < table@.len() && (#[trigger] table@[i].0)@ == a && lex_le(
                            key@,
                            table@[i].1.nibbles@,
                        ) implies lex_le(ep.1.nibbles@, table@[i].1.nibbles@) by {
                        if i < p {
                            assert(dup_lt(table@[i].0@, table@[i].1.nibbles@, a, key@));
                            lemma_lex_lt_irrefl(a);
                            // outer equal, so the sub-key is below `key`
                            assert(lex_lt(table@[i].1.nibbles@, key@));
                            if lex_lt(key@, table@[i].1.nibbles@) {
                                lemma_lex_lt_asymm(key@, table@[i].1.nibbles@);
                            }
                        } else if i > p {
                            assert(dup_lt(ep.0@, ep.1.nibbles@, table@[i].0@,
                                table@[i].1.nibbles@));
                            lemma_lex_lt_irrefl(a);
                        }
                    }
                }
                let sub = e.1.nibbles.clone();
                self.position = Some(e.1.nibbles.clone());
                return Ok(Some((sub, e.1.node)));
            }
        }
        proof {
            assert forall|i: int|
                0 <= i < table@.len() && (#[trigger] table@[i].0)@ == a implies
                lex_lt(table@[i].1.nibbles@, key@) by {
                if i < p {
                    assert(dup_lt(table@[i].0@, table@[i].1.nibbles@, a, key@));
                    lemma_lex_lt_irrefl(a);
                } else {
                    // every row at or past the bound is above the group or in
                    // another group, so row `i` cannot carry outer key `a`
                    assert(!dup_lt(table@[i].0@, table@[i].1.nibbles@, a, key@));
                    if (p as int) < table@.len() {
                        let ep = table@[p as int];
                        assert(ep.0@ != a);
                        assert(!dup_lt(ep.0@, ep.1.nibbles@, a, key@));
                        lemma_lex_lt_total(ep.0@, a);
                        assert(lex_lt(a, ep.0@));
                        if i > p {
                            assert(dup_lt(ep.0@, ep.1.nibbles@, table@[i].0@,
                                table@[i].1.nibbles@));
                            lemma_lex_lt_asymm(a, ep.0@);
                        } else {
                            lemma_lex_lt_irrefl(a);
                        }
                    }
                }
            }
        }
        self.position = None;
        Ok(None)
    }

    /// Seeks an exact match for the given sub-key in the bound account's
    /// storage trie. A raw group seek may land on the next sub-key of the
    /// same group, so the returned sub-key is re-checked against the request:
    /// exactly the stored binding of that sub-key, or nothing.
    pub fn seek_exact(&mut self, table: &StoragesTrieTable, key: Nibbles) -> (r: Result<
        Option<(Nibbles, BranchNodeCompact)>,
        DatabaseError,
    >)
        requires
            table.wf(),
        ensures
            r is Ok,
            (r->Ok_0 is Some <==> dup_lookup(table@, old(self).hashed_address@, key@) is Some),
            r->Ok_0 is Some ==> {
                let e = r->Ok_0->0;
                e.0@ == key@ && node_matches(
                    e.1,
                    dup_lookup(table@, old(self).hashed_address@, key@)->0,
                )
            },
            r->Ok_0 is Some ==> final(self).pos() == Some(key@),
            r->Ok_0 is None ==> final(self).pos() is None,
            final(self).hashed_address@ == old(self).hashed_address@,
    {
        let ghost a = self.hashed_address@;
        let found = self.seek(table, key.clone())?;
        match found {
            Some(e) => {
                if nibbles_eq(&e.0, &key) {
                    Ok(Some(e))
                } else {
                    self.position = None;
                    proof {
                        // the group's least sub-key at or above `key` is not
                        // `key` itself, so `key` is not stored
                        if dup_lookup(table@, a, key@) is Some {
                            lemma_dup_lookup_exists(table@, a, key@);
                            let w = choose|w: int|
                                0 <= w < table@.len() && (#[trigger] table@[w].0)@ == a
                                    && table@[w].1.nibbles@ == key@;
                            assert(lex_le(key@, table@[w].1.nibbles@));
                            assert(lex_le(e.0@, key@));
                            assert(lex_le(key@, e.0@));
                            lemma_lex_lt_asymm(key@, e.0@);
                        }
                    }
                    Ok(None)
                }
            },
            None => {
                proof {
                    if dup_lookup(table@, a, key@) is Some {
                        lemma_dup_lookup_exists(table@, a, key@);
                        let w = choose|w: int|
                            0 <= w < table@.len() && (#[trigger] table@[w].0)@ == a
                                && table@[w].1.nibbles@ == key@;
                        lemma_lex_lt_irrefl(key@);
                    }
                }
                Ok(None)
            },
        }
    }

    /// The logical key of the entry the cursor last positioned on.
    pub fn current(&self) -> (r: Result<Option<TrieKey>, DatabaseError>)
        ensures
            r is Ok,
            (r->Ok_0 is Some <==> self.pos() is Some),
            r->Ok_0 is Some ==> (r->Ok_0->0 matches TrieKey::StorageNode(h, p) && h@
                == self.hashed_address@ && p@ == self.pos()->0),
    {
        match &self.position {
            Some(p) => Ok(
                Some(TrieKey::StorageNode(self.hashed_address.clone(), p.clone())),
            ),
            None => Ok(None),
        }
    }

    /// Store a node under the bound account and the sub-key, replacing any
    /// node already there. Every other (account, sub-key) pair keeps its
    /// binding; the cursor is left on the written entry.
    pub fn upsert(
        &mut self,
        table: &mut StoragesTrieTable,
        key: Nibbles,
        node: BranchNodeCompact,
    ) -> (r: Result<(), DatabaseError>)
        requires
            old(table).wf(),
            old(self).hashed_address.wf(),
            nibbles_valid(key@),
            node.wf(),
        ensures
            r is Ok,
            final(table).wf(),
            dup_lookup(final(table)@, old(self).hashed_address@, key@) == Some(node),
            forall|a2: Seq<u8>, s2: Seq<u8>|
                !(a2 == old(self).hashed_address@ && s2 == key@) ==> dup_lookup(
                    final(table)@,
                    a2,
                    s2,
                ) == dup_lookup(old(table)@, a2, s2),
            final(self).pos() == Some(key@),
            final(self).hashed_address@ == old(self).hashed_address@,
    {
        self.position = Some(key.clone());
        table.upsert(self.hashed_address.clone(), StorageTrieEntry { nibbles: key, node });
        Ok(())
    }

    /// Remove the entry the cursor last positioned on. Its (account,
    /// sub-key) pair loses its binding; every other pair keeps its own.
    pub fn delete_current(&mut self, table: &mut StoragesTrieTable) -> (r: Result<
        (),
        DatabaseError,
    >)
        requires
            old(table).wf(),
            old(self).pos() is Some,
            dup_lookup(old(table)@, old(self).hashed_address@, old(self).pos()->0) is Some,
        ensures
            r is Ok,
            final(table).wf(),
            dup_lookup(final(table)@, old(self).hashed_address@, old(self).pos()->0) is None,
            forall|a2: Seq<u8>, s2: Seq<u8>|
                !(a2 == old(self).hashed_address@ && s2 == old(self).pos()->0) ==> dup_lookup(
                    final(table)@,
                    a2,
                    s2,
                ) == dup_lookup(old(table)@, a2, s2),
            final(self).pos() is None,
            final(self).hashed_address@ == old(self).hashed_address@,
    {
        let ghost a = self.hashed_address@;
        let key = match &self.position {
            Some(p) => p.clone(),
            None => Nibbles::empty(),
        };
        let p = table.lower_bound(&self.hashed_address, &key);
        proof {
            lemma_dup_lookup_exists(old(table)@, a, key@);
            let w = choose|w: int|
                0 <= w < table@.len() && (#[trigger] table@[w].0)@ == a
                    && table@[w].1.nibbles@ == key@;
            if w < p {
                assert(dup_lt(table@[w].0@, table@[w].1.nibbles@, a, key@));
                lemma_lex_lt_irrefl(a);
                lemma_lex_lt_irrefl(key@);
            } else if w > p {
                let ep = table@[p as int];
                assert(!dup_lt(ep.0@, ep.1.nibbles@, a, key@));
                assert(dup_lt(ep.0@, ep.1.nibbles@, table@[w].0@, table@[w].1.nibbles@));
                lemma_lex_lt_total(ep.0@, a);
                lemma_lex_lt_total(ep.1.nibbles@, key@);
                if ep.0@ == a {
                    lemma_lex_lt_asymm(ep.1.nibbles@, key@);
                } else {
                    lemma_lex_lt_asymm(ep.0@, a);
                }
            }
            assert(table@[p as int].0@ == a && table@[p as int].1.nibbles@ == key@);
        }
        table.remove_at(p);
        self.position = None;
        Ok(())
    }

    /// Remove every entry of the bound account's duplicate-key group.
    /// Entries of every other account's group are untouched.
    pub fn delete_current_duplicates(&mut self, table: &mut StoragesTrieTable) -> (r: Result<
        (),
        DatabaseError,
    >)
        requires
            old(table).wf(),
        ensures
            r is Ok,
            final(table).wf(),
            forall|sub: Seq<u8>| #[trigger] dup_lookup(
                final(table)@,
                old(self).hashed_address@,
                sub,
            ) is None,
            forall|a2: Seq<u8>, s2: Seq<u8>|
                a2 != old(self).hashed_address@ ==> dup_lookup(final(table)@, a2, s2)
                    == dup_lookup(old(table)@, a2, s2),
            final(self).pos() is None,
            final(self).hashed_address@ == old(self).hashed_address@,
    {
        table.delete_group(&self.hashed_address);
        self.position = None;
        Ok(())
    }
}

/// A cursor over the whole storage-trie table, not bound to one account:
/// the outer key is given explicitly per call. Used for whole-table
/// operations such as sweeping every account's storage subtree.
#[derive(Debug)]
pub struct DatabaseStoragesTrieCursor {
    /// Composite key of the entry the cursor last positioned on.
    pub position: Option<(B256, Nibbles)>,
}

impl DatabaseStoragesTrieCursor {
    /// The cursor's logical position.
    pub open spec fn pos(&self) -> Option<(Seq<u8>, Seq<u8>)> {
        match self.position {
            Some((ref a, ref s)) => Some((a@, s@)),
            None => None,
        }
    }

    /// Create a new storage trie cursor, not yet positioned.
    pub fn new() -> (r: DatabaseStoragesTrieCursor)
        ensures
            r.pos() is None,
    {
        DatabaseStoragesTrieCursor { position: None }
    }

    /// Seeks the first entry of account `key`'s duplicate-key group: the
    /// entry with the smallest sub-key, or nothing when the group is empty.
    pub fn seek_exact(&mut self, table: &StoragesTrieTable, key: B256) -> (r: Result<
        Option<(Nibbles, BranchNodeCompact)>,
        DatabaseError,
    >)
        requires
            table.wf(),
        ensures
            r is Ok,
            r->Ok_0 is None ==> forall|i: int|
                0 <= i < table@.len() ==> (#[trigger] table@[i].0)@ != key@,
            r->Ok_0 is Some ==> {
                let e = r->Ok_0->0;
                &&& dup_lookup(table@, key@, e.0@) is Some
                &&& node_matches(e.1, dup_lookup(table@, key@, e.0@)->0)
                &&& forall|i: int|
                    0 <= i < table@.len() && (#[trigger] table@[i].0)@ == key@ ==> lex_le(
                        e.0@,
                        table@[i].1.nibbles@,
                    )
            },
            r->Ok_0 is Some ==> final(self).pos() == Some((key@, (r->Ok_0->0).0@)),
            r->Ok_0 is None ==> final(self).pos() is None,
    {
        let empty_sub = Nibbles::empty();
        let p = table.lower_bound(&key, &empty_sub);
        proof {
            assert forall|i: int| 0 <= i < p implies lex_lt(#[trigger] table@[i].0@, key@) by {
                assert(dup_lt(table@[i].0@, table@[i].1.nibbles@, key@, Seq::<u8>::empty()));
            }
        }
        if p < table.len() {
            let e = table.get(p);
            if b256_eq(&e.0, &key) {
                proof {
                    let ep = table@[p as int];
                    lemma_dup_lookup_present(table@, key@, ep.1.nibbles@, p as int);
                    assert forall|i: int|
                        0 <= i < table@.len() && (#[trigger] table@[i].0)@ == key@ implies
                        lex_le(ep.1.nibbles@, table@[i].1.nibbles@) by {
                        if i < p {
                            lemma_lex_lt_irrefl(key@);
                        } else if i > p {
                            assert(dup_lt(ep.0@, ep.1.nibbles@, table@[i].0@,
                                table@[i].1.nibbles@));
                            lemma_lex_lt_irrefl(key@);
                        }
                    }
                }
                let sub = e.1.nibbles.clone();
                self.position = Some((key, e.1.nibbles.clone()));
                return Ok(Some((sub, e.1.node)));
            }
        }
        proof {
            assert forall|i: int| 0 <= i < table@.len() implies
                (#[trigger] table@[i].0)@ != key@ by {
                if i >= p && table@[i].0@ == key@ {
                    let ep = table@[p as int];
                    assert(ep.0@ != key@);
                    assert(!dup_lt(ep.0@, ep.1.nibbles@, key@, Seq::<u8>::empty()));
                    lemma_lex_lt_total(ep.0@, key@);
                    assert(lex_lt(key@, ep.0@));
                    if i > p {
                        assert(dup_lt(ep.0@, ep.1.nibbles@, table@[i].0@,
                            table@[i].1.nibbles@));
                        lemma_lex_lt_asymm(key@, ep.0@);
                    }
                }
                if i < p && table@[i].0@ == key@ {
                    lemma_lex_lt_irrefl(key@);
                }
            }
        }
        self.position = None;
        Ok(None)
    }

    /// Seeks, inside account `key`'s group, the first sub-key at or above
    /// `subkey`: the smallest stored sub-key `>=` the given one, and nothing
    /// from any other account's group.
    pub fn seek_by_key_subkey(
        &mut self,
        table: &StoragesTrieTable,
        key: B256,
        subkey: Nibbles,
    ) -> (r: Result<Option<(Nibbles, BranchNodeCompact)>, DatabaseError>)
        requires
            table.wf(),
        ensures
            r is Ok,
            r->Ok_0 is None ==> forall|i: int|
                0 <= i < table@.len() && (#[trigger] table@[i].0)@ == key@ ==> lex_lt(
                    table@[i].1.nibbles@,
                    subkey@,
                ),
            r->Ok_0 is Some ==> {
                let e = r->Ok_0->0;
                &&& dup_lookup(table@, key@, e.0@) is Some
                &&& node_matches(e.1, dup_lookup(table@, key@, e.0@)->0)
                &&& lex_le(subkey@, e.0@)
                &&& forall|i: int|
                    0 <= i < table@.len() && (#[trigger] table@[i].0)@ == key@ && lex_le(
                        subkey@,
                        table@[i].1.nibbles@,
                    ) ==> lex_le(e.0@, table@[i].1.nibbles@)
            },
            r->Ok_0 is Some ==> final(self).pos() == Some((key@, (r->Ok_0->0).0@)),
            r->Ok_0 is None ==> final(self).pos() is None,
    {
        let mut scoped = DatabaseStorageTrieCursor::new(key.clone());
        let found = scoped.seek(table, subkey)?;
        match found {
            Some(e) => {
                self.position = Some((key, e.0.clone()));
                Ok(Some(e))
            },
            None => {
                self.position = None;
                Ok(None)
            },
        }
    }

    /// The logical key of the entry the cursor last positioned on.
    pub fn current(&self) -> (r: Result<Option<TrieKey>, DatabaseError>)
        ensures
            r is Ok,
            (r->Ok_0 is Some <==> self.pos() is Some),
            r->Ok_0 is Some ==> (r->Ok_0->0 matches TrieKey::StorageNode(h, p) && h@
                == (self.pos()->0).0 && p@ == (self.pos()->0).1),
    {
        match &self.position {
            Some((a, s)) => Ok(Some(TrieKey::StorageNode(a.clone(), s.clone()))),
            None => Ok(None),
        }
    }

    /// Store the entry under account `key`, replacing any entry already
    /// stored under the same (account, sub-key). Every other pair keeps its
    /// binding; the cursor is left on the written entry.
    pub fn upsert(&mut self, table: &mut StoragesTrieTable, key: B256, entry: StorageTrieEntry)
        -> (r: Result<(), DatabaseError>)
        requires
            old(table).wf(),
            key.wf(),
            entry.wf(),
        ensures
            r is Ok,
            final(table).wf(),
            dup_lookup(final(table)@, key@, entry.nibbles@) == Some(entry.node),
            forall|a2: Seq<u8>, s2: Seq<u8>|
                !(a2 == key@ && s2 == entry.nibbles@) ==> dup_lookup(final(table)@, a2, s2)
                    == dup_lookup(old(table)@, a2, s2),
            final(self).pos() == Some((key@, entry.nibbles@)),
    {
        self.position = Some((key.clone(), entry.nibbles.clone()));
        table.upsert(key, entry);
        Ok(())
    }

    /// Remove the entry the cursor last positioned on. Its (account,
    /// sub-key) pair loses its binding; every other pair keeps its own.
    pub fn delete_current(&mut self, table: &mut StoragesTrieTable) -> (r: Result<
        (),
        DatabaseError,
    >)
        requires
            old(table).wf(),
            old(self).pos() is Some,
            dup_lookup(old(table)@, (old(self).pos()->0).0, (old(self).pos()->0).1) is Some,
        ensures
            r is Ok,
            final(table).wf(),
            dup_lookup(final(table)@, (old(self).pos()->0).0, (old(self).pos()->0).1) is None,
            forall|a2: Seq<u8>, s2: Seq<u8>|
                !(a2 == (old(self).pos()->0).0 && s2 == (old(self).pos()->0).1) ==> dup_lookup(
                    final(table)@,
                    a2,
                    s2,
                ) == dup_lookup(old(table)@, a2, s2),
            final(self).pos() is None,
    {
        let (a, s) = match &self.position {
            Some((a, s)) => (a.clone(), s.clone()),
            None => (B256 { bytes: Vec::new() }, Nibbles::empty()),
        };
        let mut scoped = DatabaseStorageTrieCursor { hashed_address: a, position: Some(s) };
        scoped.delete_current(table)?;
        self.position = None;
        Ok(())
    }

    /// Remove every entry sharing the outer key the cursor last positioned
    /// on. Entries of every other account's group are untouched.
    pub fn delete_current_duplicates(&mut self, table: &mut StoragesTrieTable) -> (r: Result<
        (),
        DatabaseError,
    >)
        requires
            old(table).wf(),
            old(self).pos() is Some,
        ensures
            r is Ok,
            final(table).wf(),
            forall|sub: Seq<u8>| #[trigger] dup_lookup(
                final(table)@,
                (old(self).pos()->0).0,
                sub,
            ) is None,
            forall|a2: Seq<u8>, s2: Seq<u8>|
                a2 != (old(self).pos()->0).0 ==> dup_lookup(final(table)@, a2, s2) == dup_lookup(
                    old(table)@,
                    a2,
                    s2,
                ),
            final(self).pos() == old(self).pos(),
    {
        let a = match &self.position {
            Some((a, _)) => a.clone(),
            None => B256 { bytes: Vec::new() },
        };
        table.delete_group(&a);
        Ok(())
    }
}

/// One transaction over the store: the two trie tables, the flat hashed
/// state, and the change logs recorded per block. Yields cursors over the
/// tries; read-only callers and mutating callers share the same cursor
/// types, using only the read or also the write operations.
#[derive(Debug)]
pub struct DbTxRefWrapper {
    /// The account trie.
    pub accounts_trie: AccountsTrieTable,
    /// The storage tries, grouped by hashed account address.
    pub storages_trie: StoragesTrieTable,
    /// Hashed account leaf payloads.
    pub hashed_accounts: HashedAccountsTable,
    /// Hashed storage slot values.
    pub hashed_storages: HashedStoragesTable,
    /// Per-block account change log: one row per touched account.
    pub account_changes: Vec<crate::prefix_set::AccountChange>,
    /// Per-block storage change log: one row per touched slot.
    pub storage_changes: Vec<crate::prefix_set::StorageChange>,
}

impl DbTxRefWrapper {
    /// Well-formedness of every table.
    pub open spec fn wf(&self) -> bool {
        &&& self.accounts_trie.wf()
        &&& self.storages_trie.wf()
        &&& self.hashed_accounts.wf()
        &&& self.hashed_storages.wf()
    }

    /// A transaction over an empty store.
    pub fn new() -> (r: DbTxRefWrapper)
        ensures
            r.wf(),
            r.accounts_trie@.len() == 0,
            r.storages_trie@.len() == 0,
            r.hashed_accounts@.len() == 0,
            r.hashed_storages@.len() == 0,
            r.account_changes@.len() == 0,
            r.storage_changes@.len() == 0,
    {
        DbTxRefWrapper {
            accounts_trie: AccountsTrieTable::new(),
            storages_trie: StoragesTrieTable::new(),
            hashed_accounts: HashedAccountsTable::new(),
            hashed_storages: HashedStoragesTable::new(),
            account_changes: Vec::new(),
            storage_changes: Vec::new(),
        }
    }

    /// A read cursor over the account trie.
    pub fn account_trie_cursor(&self) -> (r: Result<DatabaseAccountTrieCursor, DatabaseError>)
        ensures
            r is Ok,
            r->Ok_0.pos() is None,
    {
        Ok(DatabaseAccountTrieCursor::new())
    }

    /// A read cursor over one account's storage trie.
    pub fn storage_tries_cursor(&self, hashed_address: B256) -> (r: Result<
        DatabaseStorageTrieCursor,
        DatabaseError,
    >)
        ensures
            r is Ok,
            r->Ok_0.hashed_address@ == hashed_address@,
            r->Ok_0.pos() is None,
    {
        Ok(DatabaseStorageTrieCursor::new(hashed_address))
    }

    /// A read-write cursor over the account trie.
    pub fn account_trie_cursor_rw(&self) -> (r: Result<DatabaseAccountTrieCursor, DatabaseError>)
        ensures
            r is Ok,
            r->Ok_0.pos() is None,
    {
        Ok(DatabaseAccountTrieCursor::new())
    }

    /// A read-write cursor over the whole storage-trie table.
    pub fn storage_tries_cursor_rw(&self) -> (r: Result<
        DatabaseStoragesTrieCursor,
        DatabaseError,
    >)
        ensures
            r is Ok,
            r->Ok_0.pos() is None,
    {
        Ok(DatabaseStoragesTrieCursor::new())
    }
}

} // verus!
