//! The flat hashed state: account leaf payloads keyed by hashed address, and
//! storage slot values keyed by (hashed address, hashed slot). These tables
//! are the leaf data source of root computation; they hold no trie nodes.

use vstd::prelude::*;
use crate::nibbles::{lex_lt, lemma_lex_lt_irrefl, lemma_lex_lt_total, lemma_lex_lt_trans};
use crate::node::{B256, b256_eq, b256_lt};
use crate::store::{dup_lt, lemma_dup_lt_trans};

verus! {

/// Entries of the hashed-accounts table are sorted strictly by hashed
/// address.
pub open spec fn ha_sorted(s: Seq<(B256, Vec<u8>)>) -> bool {
    forall|i: int, j: int|
        0 <= i < j < s.len() ==> lex_lt(#[trigger] s[i].0@, #[trigger] s[j].0@)
}

/// Every hashed-accounts row has a 32-byte key.
pub open spec fn ha_wf(s: Seq<(B256, Vec<u8>)>) -> bool {
    forall|i: int| 0 <= i < s.len() ==> (#[trigger] s[i].0).wf()
}

/// The leaf payload stored under hashed address `a`, if any.
pub open spec fn ha_lookup(s: Seq<(B256, Vec<u8>)>, a: Seq<u8>) -> Option<Seq<u8>>
    decreases s.len(),
{
    if s.len() == 0 {
        None
    } else if s[0].0@ == a {
        Some(s[0].1@)
    } else {
        ha_lookup(s.skip(1), a)
    }
}

/// If no row carries key `a`, the lookup misses.
pub proof fn lemma_ha_lookup_absent(s: Seq<(B256, Vec<u8>)>, a: Seq<u8>)
    requires
        forall|i: int| 0 <= i < s.len() ==> (#[trigger] s[i].0)@ != a,
    ensures
        ha_lookup(s, a) is None,
    decreases s.len(),
{
    if s.len() > 0 {
        assert(forall|i: int|
            0 <= i < s.skip(1).len() ==> #[trigger] s.skip(1)[i] == s[i + 1]);
        lemma_ha_lookup_absent(s.skip(1), a);
    }
}

/// If some row carries key `a` and the table is strictly sorted, the lookup
/// returns exactly that row's payload.
pub proof fn lemma_ha_lookup_present(s: Seq<(B256, Vec<u8>)>, a: Seq<u8>, i: int)
    requires
        ha_sorted(s),
        0 <= i < s.len(),
        s[i].0@ == a,
    ensures
        ha_lookup(s, a) == Some(s[i].1@),
    decreases s.len(),
{
    if i == 0 {
    } else {
        assert(lex_lt(s[0].0@, s[i].0@));
        lemma_lex_lt_irrefl(s[0].0@);
        assert(forall|x: int|
            0 <= x < s.skip(1).len() ==> #[trigger] s.skip(1)[x] == s[x + 1]);
        lemma_ha_lookup_present(s.skip(1), a, i - 1);
    }
}

/// The hashed-accounts table: current canonical account leaf payloads in
/// hashed-address order.
#[derive(Debug)]
pub struct HashedAccountsTable {
    /// The rows, sorted strictly by hashed address.
    pub entries: Vec<(B256, Vec<u8>)>,
}

impl View for HashedAccountsTable {
    type V = Seq<(B256, Vec<u8>)>;

    open spec fn view(&self) -> Seq<(B256, Vec<u8>)> {
        self.entries@
    }
}

impl HashedAccountsTable {
    /// The table invariant.
    pub open spec fn wf(&self) -> bool {
        ha_sorted(self@) && ha_wf(self@)
    }

    /// An empty table.
    pub fn new() -> (r: HashedAccountsTable)
        ensures
            r@.len() == 0,
            r.wf(),
    {
        HashedAccountsTable { entries: Vec::new() }
    }

    /// Number of rows.
    pub fn len(&self) -> (r: usize)
        ensures
            r == self@.len(),
    {
        self.entries.len()
    }

    /// A copy of the row at position `i`.
    pub fn get(&self, i: usize) -> (r: (B256, Vec<u8>))
        requires
            i < self@.len(),
        ensures
            r.0@ == self@[i as int].0@,
            r.1@ == self@[i as int].1@,
    {
        let e = &self.entries[i];
        (e.0.clone(), e.1.clone())
    }

    /// Whether an account with hashed address `a` exists.
    pub fn contains(&self, a: &B256) -> (r: bool)
        requires
            self.wf(),
        ensures
            r == (ha_lookup(self@, a@) is Some),
    {
        let n = self.entries.len();
        let mut i: usize = 0;
        while i < n
            invariant
                i <= n,
                n == self@.len(),
                self.wf(),
                forall|j: int| 0 <= j < i ==> (#[trigger] self@[j].0)@ != a@,
            decreases n - i,
        {
            if b256_eq(&self.entries[i].0, a) {
                proof {
                    lemma_ha_lookup_present(self@, a@, i as int);
                }
                return true;
            }
            i += 1;
        }
        proof {
            lemma_ha_lookup_absent(self@, a@);
        }
        false
    }

    /// Insert the payload, replacing any payload already stored under the
    /// same hashed address. Every other address keeps its binding.
    #[verifier::rlimit(60)]
    pub fn upsert(&mut self, a: B256, payload: Vec<u8>)
        requires
            old(self).wf(),
            a.wf(),
        ensures
            final(self).wf(),
            ha_lookup(final(self)@, a@) == Some(payload@),
            forall|k: Seq<u8>|
                k != a@ ==> ha_lookup(final(self)@, k) == ha_lookup(old(self)@, k),
    {
        let ghost old_s = self@;
        let ghost ka = a@;
        let n = self.entries.len();
        let mut p: usize = 0;
        let mut go = p < n && b256_lt(&self.entries[p].0, &a);
        while go
            invariant
                p <= n,
                n == self@.len(),
                self.wf(),
                self@ == old_s,
                ka == a@,
                old_s == self@,
                go ==> p < n && lex_lt(self@[p as int].0@, ka),
                !go ==> p == n || !lex_lt(self@[p as int].0@, ka),
                forall|j: int| 0 <= j < p ==> lex_lt(#[trigger] self@[j].0@, ka),
            decreases n - p,
        {
            p += 1;
            go = p < n && b256_lt(&self.entries[p].0, &a);
        }
        proof {
            assert forall|j: int| p <= j < old_s.len() implies
                !lex_lt(#[trigger] old_s[j].0@, ka) by {
                if j > p && lex_lt(old_s[j].0@, ka) {
                    assert(lex_lt(old_s[p as int].0@, old_s[j].0@));
                    lemma_lex_lt_trans(old_s[p as int].0@, old_s[j].0@, ka);
                }
            }
        }
        let replace = p < self.entries.len() && b256_eq(&self.entries[p].0, &a);
        if replace {
            self.entries.set(p, (a, payload));
        } else {
            self.entries.insert(p, (a, payload));
        }
        proof {
            let s = self@;
            let pi = p as int;
            assert forall|i: int, j: int| 0 <= i < j < s.len() implies
                lex_lt(#[trigger] s[i].0@, #[trigger] s[j].0@) by {
                if replace {
                    if i == pi {
                        assert(s[j] == old_s[j]);
                        assert(lex_lt(old_s[pi].0@, old_s[j].0@));
                        assert(!lex_lt(old_s[j].0@, ka));
                        if !lex_lt(ka, old_s[j].0@) {
                            lemma_lex_lt_total(ka, old_s[j].0@);
                            assert(old_s[j].0@ == ka);
                            lemma_lex_lt_irrefl(ka);
                        }
                    } else if j == pi {
                        assert(s[i] == old_s[i]);
                        assert(lex_lt(old_s[i].0@, ka));
                    }
                } else {
                    if i == pi {
                        let oj = j - 1;
                        assert(s[j] == old_s[oj]);
                        assert(!lex_lt(old_s[oj].0@, ka));
                        if !lex_lt(ka, old_s[oj].0@) {
                            lemma_lex_lt_total(ka, old_s[oj].0@);
                            assert(old_s[oj].0@ == ka);
                            assert(oj >= pi);
                            if oj == pi {
                                assert(!replace);
                                assert(false);
                            } else {
                                assert(lex_lt(old_s[pi].0@, old_s[oj].0@));
                                assert(!lex_lt(old_s[pi].0@, ka));
                                lemma_lex_lt_irrefl(ka);
                            }
                        }
                    } else if j == pi {
                        assert(s[i] == old_s[i]);
                        assert(lex_lt(old_s[i].0@, ka));
                    } else if i < pi && j > pi {
                        assert(s[i] == old_s[i] && s[j] == old_s[j - 1]);
                        if j - 1 == i {
                            assert(false);
                        }
                    } else if i > pi {
                        assert(s[i] == old_s[i - 1] && s[j] == old_s[j - 1]);
                    }
                }
            }
            assert forall|i: int| 0 <= i < s.len() implies (#[trigger] s[i].0).wf() by {
                if i != pi {
                    if replace || i < pi {
                        assert(s[i] == old_s[i]);
                    } else {
                        assert(s[i] == old_s[i - 1]);
                    }
                }
                assert(s[i].0.wf());
            }
            lemma_ha_lookup_present(s, ka, pi);
            assert forall|k: Seq<u8>| k != ka implies
                ha_lookup(s, k) == ha_lookup(old_s, k) by {
                if exists|w: int| 0 <= w < old_s.len() && (#[trigger] old_s[w].0)@ == k {
                    let w = choose|w: int|
                        0 <= w < old_s.len() && (#[trigger] old_s[w].0)@ == k;
                    lemma_ha_lookup_present(old_s, k, w);
                    if replace {
                        assert(w != pi);
                        assert(s[w] == old_s[w]);
                        lemma_ha_lookup_present(s, k, w);
                    } else if w < pi {
                        assert(s[w] == old_s[w]);
                        lemma_ha_lookup_present(s, k, w);
                    } else {
                        assert(s[w + 1] == old_s[w]);
                        lemma_ha_lookup_present(s, k, w + 1);
                    }
                } else {
                    assert(forall|w: int|
                        0 <= w < old_s.len() ==> (#[trigger] old_s[w].0)@ != k);
                    lemma_ha_lookup_absent(old_s, k);
                    assert forall|w: int| 0 <= w < s.len() implies
                        (#[trigger] s[w].0)@ != k by {
                        if w != pi {
                            if replace || w < pi {
                                assert(s[w] == old_s[w]);
                            } else {
                                assert(s[w] == old_s[w - 1]);
                            }
                        }
                    }
                    lemma_ha_lookup_absent(s, k);
                }
            }
        }
    }
}

/// Entries of the hashed-storages table are sorted strictly by
/// (hashed address, hashed slot).
pub open spec fn hs_sorted(s: Seq<(B256, B256, Vec<u8>)>) -> bool {
    forall|i: int, j: int|
        0 <= i < j < s.len() ==> dup_lt(
            #[trigger] s[i].0@, s[i].1@,
            #[trigger] s[j].0@, s[j].1@,
        )
}

/// Every hashed-storages row has 32-byte keys.
pub open spec fn hs_wf(s: Seq<(B256, B256, Vec<u8>)>) -> bool {
    forall|i: int| 0 <= i < s.len() ==> (#[trigger] s[i].0).wf() && s[i].1.wf()
}

/// The value stored under account `a` and hashed slot `slot`, if any.
pub open spec fn hs_lookup(s: Seq<(B256, B256, Vec<u8>)>, a: Seq<u8>, slot: Seq<u8>) -> Option<
    Seq<u8>,
>
    decreases s.len(),
{
    if s.len() == 0 {
        None
    } else if s[0].0@ == a && s[0].1@ == slot {
        Some(s[0].2@)
    } else {
        hs_lookup(s.skip(1), a, slot)
    }
}

/// If no row carries the composite key, the lookup misses.
pub proof fn lemma_hs_lookup_absent(s: Seq<(B256, B256, Vec<u8>)>, a: Seq<u8>, slot: Seq<u8>)
    requires
        forall|i: int|
            0 <= i < s.len() ==> !((#[trigger] s[i].0)@ == a && s[i].1@ == slot),
    ensures
        hs_lookup(s, a, slot) is None,
    decreases s.len(),
{
    if s.len() > 0 {
        assert(forall|i: int|
            0 <= i < s.skip(1).len() ==> #[trigger] s.skip(1)[i] == s[i + 1]);
        lemma_hs_lookup_absent(s.skip(1), a, slot);
    }
}

/// If some row carries the composite key and the table is strictly sorted,
/// the lookup returns exactly that row's value.
pub proof fn lemma_hs_lookup_present(
    s: Seq<(B256, B256, Vec<u8>)>,
    a: Seq<u8>,
    slot: Seq<u8>,
    i: int,
)
    requires
        hs_sorted(s),
        0 <= i < s.len(),
        s[i].0@ == a,
        s[i].1@ == slot,
    ensures
        hs_lookup(s, a, slot) == Some(s[i].2@),
    decreases s.len(),
{
    if i == 0 {
    } else {
        assert(dup_lt(s[0].0@, s[0].1@, a, slot));
        if s[0].0@ == a && s[0].1@ == slot {
            lemma_lex_lt_irrefl(a);
            lemma_lex_lt_irrefl(slot);
        }
        assert(forall|x: int|
            0 <= x < s.skip(1).len() ==> #[trigger] s.skip(1)[x] == s[x + 1]);
        lemma_hs_lookup_present(s.skip(1), a, slot, i - 1);
    }
}

/// The test for one group: the row belongs to account `a`.
pub open spec fn hs_group_pred(a: Seq<u8>) -> spec_fn((B256, B256, Vec<u8>)) -> bool {
    |e: (B256, B256, Vec<u8>)| e.0@ == a
}

/// The rows of account `a`'s storage, in slot order.
pub open spec fn hs_group(s: Seq<(B256, B256, Vec<u8>)>, a: Seq<u8>) -> Seq<(B256, B256, Vec<u8>)> {
    s.filter(hs_group_pred(a))
}

/// The hashed-storages table: current canonical storage slot values, grouped
/// by hashed account address and ordered by hashed slot within each group.
#[derive(Debug)]
pub struct HashedStoragesTable {
    /// The rows, sorted strictly by (hashed address, hashed slot).
    pub entries: Vec<(B256, B256, Vec<u8>)>,
}

impl View for HashedStoragesTable {
    type V = Seq<(B256, B256, Vec<u8>)>;

    open spec fn view(&self) -> Seq<(B256, B256, Vec<u8>)> {
        self.entries@
    }
}

impl HashedStoragesTable {
    /// The table invariant.
    pub open spec fn wf(&self) -> bool {
        hs_sorted(self@) && hs_wf(self@)
    }

    /// An empty table.
    pub fn new() -> (r: HashedStoragesTable)
        ensures
            r@.len() == 0,
            r.wf(),
    {
        HashedStoragesTable { entries: Vec::new() }
    }

    /// Number of rows.
    pub fn len(&self) -> (r: usize)
        ensures
            r == self@.len(),
    {
        self.entries.len()
    }

    /// The slot rows of account `a`, in slot order.
    pub fn slots_of(&self, a: &B256) -> (r: Vec<(B256, Vec<u8>)>)
        ensures
            r@.len() == hs_group(self@, a@).len(),
            forall|i: int|
                0 <= i < r@.len() ==> (#[trigger] r@[i]).0@ == hs_group(self@, a@)[i].1@
                    && r@[i].1@ == hs_group(self@, a@)[i].2@,
    {
        let mut out: Vec<(B256, Vec<u8>)> = Vec::new();
        let n = self.entries.len();
        let mut i: usize = 0;
        proof {
            assert(self@.subrange(0, 0) =~= Seq::<(B256, B256, Vec<u8>)>::empty());
            reveal(Seq::filter);
        }
        while i < n
            invariant
                i <= n,
                n == self@.len(),
                out@.len() == hs_group(self@.subrange(0, i as int), a@).len(),
                forall|j: int|
                    0 <= j < out@.len() ==> (#[trigger] out@[j]).0@ == hs_group(
                        self@.subrange(0, i as int),
                        a@,
                    )[j].1@ && out@[j].1@ == hs_group(self@.subrange(0, i as int), a@)[j].2@,
            decreases n - i,
        {
            let ghost pre = self@.subrange(0, i as int);
            let ghost post = self@.subrange(0, i + 1);
            proof {
                assert(post.drop_last() =~= pre);
                assert(post.last() == self@[i as int]);
                reveal(Seq::filter);
            }
            let e = &self.entries[i];
            if b256_eq(&e.0, a) {
                out.push((e.1.clone(), e.2.clone()));
            }
            i += 1;
        }
        proof {
            assert(self@.subrange(0, n as int) =~= self@);
        }
        out
    }

    /// Insert the value, replacing any value already stored under the same
    /// (hashed address, hashed slot). Every other pair keeps its binding.
    #[verifier::rlimit(60)]
    pub fn upsert(&mut self, a: B256, slot: B256, value: Vec<u8>)
        requires
            old(self).wf(),
            a.wf(),
            slot.wf(),
        ensures
            final(self).wf(),
            hs_lookup(final(self)@, a@, slot@) == Some(value@),
            forall|a2: Seq<u8>, s2: Seq<u8>|
                !(a2 == a@ && s2 == slot@) ==> hs_lookup(final(self)@, a2, s2) == hs_lookup(
                    old(self)@,
                    a2,
                    s2,
                ),
    {
        let ghost old_s = self@;
        let ghost ka = a@;
        let ghost ks = slot@;
        let n = self.entries.len();
        let mut p: usize = 0;
        let mut go = p < n && {
            let e = &self.entries[p];
            if b256_lt(&e.0, &a) {
                true
            } else if b256_eq(&e.0, &a) {
                b256_lt(&e.1, &slot)
            } else {
                false
            }
        };
        while go
            invariant
                p <= n,
                n == self@.len(),
                self.wf(),
                self@ == old_s,
                ka == a@,
                ks == slot@,
                old_s == self@,
                go ==> p < n && dup_lt(self@[p as int].0@, self@[p as int].1@, ka, ks),
                !go ==> p == n || !dup_lt(self@[p as int].0@, self@[p as int].1@, ka, ks),
                forall|j: int| 0 <= j < p ==> dup_lt(#[trigger] self@[j].0@, self@[j].1@, ka, ks),
            decreases n - p,
        {
            p += 1;
            go = p < n && {
                let e = &self.entries[p];
                if b256_lt(&e.0, &a) {
                    true
                } else if b256_eq(&e.0, &a) {
                    b256_lt(&e.1, &slot)
                } else {
                    false
                }
            };
        }
        proof {
            assert forall|j: int| p <= j < old_s.len() implies
                !dup_lt(#[trigger] old_s[j].0@, old_s[j].1@, ka, ks) by {
                if j > p && dup_lt(old_s[j].0@, old_s[j].1@, ka, ks) {
                    assert(dup_lt(old_s[p as int].0@, old_s[p as int].1@, old_s[j].0@,
                        old_s[j].1@));
                    lemma_dup_lt_trans(
                        old_s[p as int].0@, old_s[p as int].1@,
                        old_s[j].0@, old_s[j].1@,
                        ka, ks,
                    );
                }
            }
        }
        let replace = p < self.entries.len() && b256_eq(&self.entries[p].0, &a) && b256_eq(
            &self.entries[p].1,
            &slot,
        );
        if replace {
            self.entries.set(p, (a, slot, value));
        } else {
            self.entries.insert(p, (a, slot, value));
        }
        proof {
            let s = self@;
            let pi = p as int;
            assert forall|i: int, j: int| 0 <= i < j < s.len() implies dup_lt(
                #[trigger] s[i].0@, s[i].1@,
                #[trigger] s[j].0@, s[j].1@,
            ) by {
                if replace {
                    if i == pi {
                        assert(s[j] == old_s[j]);
                        assert(!dup_lt(old_s[j].0@, old_s[j].1@, ka, ks));
                        if !dup_lt(ka, ks, old_s[j].0@, old_s[j].1@) {
                            lemma_lex_lt_total(ka, old_s[j].0@);
                            lemma_lex_lt_total(ks, old_s[j].1@);
                            assert(old_s[j].0@ == ka && old_s[j].1@ == ks);
                            assert(dup_lt(old_s[pi].0@, old_s[pi].1@, old_s[j].0@, old_s[j].1@));
                            lemma_lex_lt_irrefl(ka);
                            lemma_lex_lt_irrefl(ks);
                        }
                    } else if j == pi {
                        assert(s[i] == old_s[i]);
                        assert(dup_lt(old_s[i].0@, old_s[i].1@, ka, ks));
                    }
                } else {
                    if i == pi {
                        let oj = j - 1;
                        assert(s[j] == old_s[oj]);
                        assert(!dup_lt(old_s[oj].0@, old_s[oj].1@, ka, ks));
                        if !dup_lt(ka, ks, old_s[oj].0@, old_s[oj].1@) {
                            lemma_lex_lt_total(ka, old_s[oj].0@);
                            lemma_lex_lt_total(ks, old_s[oj].1@);
                            assert(old_s[oj].0@ == ka && old_s[oj].1@ == ks);
                            assert(oj >= pi);
                            if oj == pi {
                                assert(!replace);
                                assert(false);
                            } else {
                                assert(dup_lt(old_s[pi].0@, old_s[pi].1@, ka, ks));
                                assert(!dup_lt(old_s[pi].0@, old_s[pi].1@, ka, ks));
                            }
                        }
                    } else if j == pi {
                        assert(s[i] == old_s[i]);
                        assert(dup_lt(old_s[i].0@, old_s[i].1@, ka, ks));
                    } else if i < pi && j > pi {
                        assert(s[i] == old_s[i] && s[j] == old_s[j - 1]);
                        if j - 1 == i {
                            assert(false);
                        }
                    } else if i > pi {
                        assert(s[i] == old_s[i - 1] && s[j] == old_s[j - 1]);
                    }
                }
            }
            assert(hs_wf(s)) by {
                assert forall|i: int| 0 <= i < s.len() implies
                    ((#[trigger] s[i].0).wf() && s[i].1.wf()) by {
                    if i != pi {
                        if replace || i < pi {
                            assert(s[i] == old_s[i]);
                        } else {
                            assert(s[i] == old_s[i - 1]);
                        }
                    }
                    assert(s[i].0.wf());
                    assert(s[i].1.wf());
                }
            }
            lemma_hs_lookup_present(s, ka, ks, pi);
            assert forall|a2: Seq<u8>, s2: Seq<u8>| !(a2 == ka && s2 == ks) implies
                hs_lookup(s, a2, s2) == hs_lookup(old_s, a2, s2) by {
                if exists|w: int|
                    0 <= w < old_s.len() && (#[trigger] old_s[w].0)@ == a2
                        && old_s[w].1@ == s2 {
                    let w = choose|w: int|
                        0 <= w < old_s.len() && (#[trigger] old_s[w].0)@ == a2
                            && old_s[w].1@ == s2;
                    lemma_hs_lookup_present(old_s, a2, s2, w);
                    if replace {
                        assert(w != pi);
                        assert(s[w] == old_s[w]);
                        lemma_hs_lookup_present(s, a2, s2, w);
                    } else if w < pi {
                        assert(s[w] == old_s[w]);
                        lemma_hs_lookup_present(s, a2, s2, w);
                    } else {
                        assert(s[w + 1] == old_s[w]);
                        lemma_hs_lookup_present(s, a2, s2, w + 1);
                    }
                } else {
                    assert(forall|w: int|
                        0 <= w < old_s.len() ==> !((#[trigger] old_s[w].0)@ == a2
                            && old_s[w].1@ == s2));
                    lemma_hs_lookup_absent(old_s, a2, s2);
                    assert forall|w: int| 0 <= w < s.len() implies
                        !((#[trigger] s[w].0)@ == a2 && s[w].1@ == s2) by {
                        if w != pi {
                            if replace || w < pi {
                                assert(s[w] == old_s[w]);
                            } else {
                                assert(s[w] == old_s[w - 1]);
                            }
                        }
                    }
                    lemma_hs_lookup_absent(s, a2, s2);
                }
            }
        }
    }
}

} // verus!
