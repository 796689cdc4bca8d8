//! Root computation over the trie leaves: the recursive merge of leaf
//! hashes into branch hashes, from scratch or reusing stored subtree hashes
//! for prefixes the prefix set does not mark as changed.
//!
//! Every node hash is the Keccak-256 digest of the RLP encoding of the
//! node's parts; both are supplied by outside crates and named here, so the
//! root of a leaf set is a mathematical function of the leaves.

use vstd::prelude::*;
use crate::nibbles::{Nibbles, nibbles_valid};
use crate::node::{B256, BranchNodeCompact, count_ones, node_matches};
use crate::hash::{keccak_of, keccak256};
use crate::store::{AccountsTrieTable, acct_lookup, lemma_acct_lookup_exists, lemma_acct_lookup_present};
use crate::trie_cursor::DatabaseAccountTrieCursor;
use crate::prefix_set::PrefixSet;

verus! {

/// What alloy_rlp's `encode` returns on a vector of byte vectors. The
/// generic list encoding treats each inner vector as a list of integers;
/// nothing here relies on the wire format, only on the result being a
/// function of the items alone.
pub uninterp spec fn rlp_list_of(items: Seq<Seq<u8>>) -> Seq<u8>;

/// The byte sequences of a vector of byte vectors.
pub open spec fn byte_views(items: Seq<Vec<u8>>) -> Seq<Seq<u8>> {
    Seq::new(items.len(), |i: int| items[i]@)
}

/// Relies on alloy_rlp's `encode` for `Vec<Vec<u8>>`: the encoding is a
/// function of the items alone.
#[verifier::external_body]
pub(crate) fn rlp_encode_list(items: &Vec<Vec<u8>>) -> (r: Vec<u8>)
    ensures
        r@ == rlp_list_of(byte_views(items@)),
{
    alloy_rlp::encode(items)
}

/// The encoding of two items as one list.
pub(crate) fn rlp_encode_pair(a: &Vec<u8>, b: &Vec<u8>) -> (r: Vec<u8>)
    ensures
        r@ == rlp_list_of(seq![a@, b@]),
{
    let mut items: Vec<Vec<u8>> = Vec::new();
    items.push(a.clone());
    items.push(b.clone());
    proof {
        assert(byte_views(items@) =~= seq![a@, b@]);
    }
    rlp_encode_list(&items)
}

/// A leaf set: complete 64-nibble paths, each path bound once.
pub open spec fn leaves_wf(l: Seq<(Seq<u8>, Seq<u8>)>) -> bool {
    &&& forall|i: int|
        0 <= i < l.len() ==> (#[trigger] l[i]).0.len() == 64 && nibbles_valid(l[i].0)
    &&& forall|i: int, j: int|
        0 <= i < j < l.len() ==> (#[trigger] l[i]).0 != (#[trigger] l[j]).0
}

/// All paths of the leaf set agree on their first `depth` nibbles.
pub open spec fn shared_prefix(l: Seq<(Seq<u8>, Seq<u8>)>, depth: int) -> bool {
    forall|i: int, j: int|
        0 <= i < l.len() && 0 <= j < l.len() ==> (#[trigger] l[i]).0.take(depth)
            == (#[trigger] l[j]).0.take(depth)
}

/// The hash of an empty subtree.
pub open spec fn empty_root() -> Seq<u8> {
    keccak_of(rlp_list_of(Seq::<Seq<u8>>::empty()))
}

/// The hash of a leaf: its remaining path and its payload.
pub open spec fn leaf_hash(tail: Seq<u8>, value: Seq<u8>) -> Seq<u8> {
    keccak_of(rlp_list_of(seq![tail, value]))
}

/// The test for one branch child: the path carries nibble `n` at `depth`.
pub open spec fn nibble_pred(depth: int, n: u8) -> spec_fn((Seq<u8>, Seq<u8>)) -> bool {
    |e: (Seq<u8>, Seq<u8>)| e.0.len() > depth && e.0[depth] == n
}

/// The leaves whose path carries nibble `n` at position `depth`.
pub open spec fn nibble_filter(l: Seq<(Seq<u8>, Seq<u8>)>, depth: int, n: u8) -> Seq<
    (Seq<u8>, Seq<u8>),
> {
    l.filter(nibble_pred(depth, n))
}

/// The root hash of the subtree holding the given leaves, whose paths agree
/// on their first `depth` nibbles: an empty subtree has the empty hash, a
/// single leaf hashes as a leaf, and more leaves split into sixteen children
/// by their nibble at `depth`, hashed as a branch.
pub open spec fn subtree_root(l: Seq<(Seq<u8>, Seq<u8>)>, depth: nat) -> Seq<u8>
    decreases 64 - depth, 17int
        when depth <= 64
{
    if l.len() == 0 {
        empty_root()
    } else if l.len() == 1 {
        leaf_hash(l[0].0.skip(depth as int), l[0].1)
    } else if depth < 64 {
        keccak_of(rlp_list_of(children_encodings(l, depth, 0)))
    } else {
        // unreachable for well-formed leaf sets: two complete distinct
        // paths cannot agree on all 64 nibbles
        empty_root()
    }
}

/// The branch items for children `n .. 16`: each absent child is the empty
/// item, each present child its subtree's root hash.
pub open spec fn children_encodings(l: Seq<(Seq<u8>, Seq<u8>)>, depth: nat, n: nat) -> Seq<
    Seq<u8>,
>
    decreases 64 - depth, 16 - n
        when depth < 64 && n <= 16
{
    if n >= 16 {
        Seq::empty()
    } else {
        let sub = nibble_filter(l, depth as int, n as u8);
        let child = if sub.len() == 0 {
            Seq::<u8>::empty()
        } else {
            subtree_root(sub, depth + 1)
        };
        seq![child] + children_encodings(l, depth, n + 1)
    }
}

/// Number of leaves falling into the top-level children below nibble `n`.
pub open spec fn count_upto(l: Seq<(Seq<u8>, Seq<u8>)>, n: nat) -> nat
    decreases n,
{
    if n == 0 {
        0
    } else {
        count_upto(l, (n - 1) as nat) + nibble_filter(l, 0, (n - 1) as u8).len()
    }
}

/// An empty leaf set has nothing to count.
proof fn lemma_count_upto_zero(l: Seq<(Seq<u8>, Seq<u8>)>, n: nat)
    requires
        l.len() == 0,
    ensures
        count_upto(l, n) == 0,
    decreases n,
{
    reveal(Seq::filter);
    if n > 0 {
        lemma_count_upto_zero(l, (n - 1) as nat);
    }
}

/// One more leaf is counted once, in its own child.
proof fn lemma_count_upto_push(l: Seq<(Seq<u8>, Seq<u8>)>, x: (Seq<u8>, Seq<u8>), n: nat)
    requires
        x.0.len() > 0,
        x.0[0] < 16,
        n <= 16,
    ensures
        count_upto(l.push(x), n) == count_upto(l, n) + (if (x.0[0] as nat) < n {
            1nat
        } else {
            0nat
        }),
    decreases n,
{
    reveal(Seq::filter);
    if n > 0 {
        lemma_count_upto_push(l, x, (n - 1) as nat);
        let nb = (n - 1) as u8;
        let pred = nibble_pred(0, nb);
        assert(l.push(x).drop_last() =~= l);
        assert(l.push(x).last() == x);
        assert(l.push(x).filter(pred) == if pred(x) {
            l.filter(pred).push(x)
        } else {
            l.filter(pred)
        });
    }
}

/// Counting is monotone in the child bound.
proof fn lemma_count_upto_mono(l: Seq<(Seq<u8>, Seq<u8>)>, n1: nat, n2: nat)
    requires
        n1 <= n2,
    ensures
        count_upto(l, n1) <= count_upto(l, n2),
    decreases n2,
{
    if n1 < n2 {
        lemma_count_upto_mono(l, n1, (n2 - 1) as nat);
    }
}

/// Sixteen children cover every leaf exactly once.
pub proof fn lemma_count_upto_all(l: Seq<(Seq<u8>, Seq<u8>)>)
    requires
        leaves_wf(l),
    ensures
        count_upto(l, 16) == l.len(),
        forall|n: nat| n <= 16 ==> #[trigger] count_upto(l, n) <= l.len(),
    decreases l.len(),
{
    if l.len() == 0 {
        lemma_count_upto_zero(l, 16);
        assert forall|n: nat| n <= 16 implies #[trigger] count_upto(l, n) <= l.len() by {
            lemma_count_upto_zero(l, n);
        }
    } else {
        let d = l.drop_last();
        assert(leaves_wf(d)) by {
            assert(forall|i: int| 0 <= i < d.len() ==> #[trigger] d[i] == l[i]);
        }
        lemma_count_upto_all(d);
        assert(d.push(l.last()) =~= l);
        assert(l.last().0.len() == 64 && l.last().0[0] < 16) by {
            assert(l[l.len() - 1].0.len() == 64);
        }
        lemma_count_upto_push(d, l.last(), 16);
        assert forall|n: nat| n <= 16 implies #[trigger] count_upto(l, n) <= l.len() by {
            lemma_count_upto_mono(l, n, 16);
        }
    }
}

/// Filtering twice is filtering by the conjunction.
pub proof fn lemma_filter_fusion<A>(
    s: Seq<A>,
    p1: spec_fn(A) -> bool,
    p2: spec_fn(A) -> bool,
    q: spec_fn(A) -> bool,
)
    requires
        forall|x: A| #[trigger] q(x) == (p1(x) && p2(x)),
    ensures
        s.filter(p1).filter(p2) == s.filter(q),
    decreases s.len(),
{
    reveal(Seq::filter);
    if s.len() == 0 {
        assert(s.filter(p1).filter(p2) =~= s.filter(q));
    } else {
        let d = s.drop_last();
        lemma_filter_fusion(d, p1, p2, q);
        let x = s.last();
        if p1(x) {
            let f1 = d.filter(p1);
            assert(s.filter(p1) == f1.push(x));
            assert(f1.push(x).drop_last() =~= f1);
            assert(f1.push(x).last() == x);
            assert(f1.push(x).filter(p2) == if p2(x) {
                f1.filter(p2).push(x)
            } else {
                f1.filter(p2)
            });
        }
        assert(s.filter(p1).filter(p2) =~= s.filter(q));
    }
}

/// Every element of a filtered sequence comes from the original.
pub proof fn lemma_filter_subset<A>(s: Seq<A>, pred: spec_fn(A) -> bool)
    ensures
        forall|i: int|
            0 <= i < s.filter(pred).len() ==> s.contains(#[trigger] s.filter(pred)[i]),
    decreases s.len(),
{
    reveal(Seq::filter);
    if s.len() > 0 {
        let d = s.drop_last();
        lemma_filter_subset(d, pred);
        assert forall|i: int|
            0 <= i < s.filter(pred).len() implies s.contains(#[trigger] s.filter(pred)[i]) by {
            let f = s.filter(pred);
            if pred(s.last()) {
                if i < f.len() - 1 {
                    assert(f[i] == d.filter(pred)[i]);
                    assert(d.contains(f[i]));
                    let w = choose|w: int| 0 <= w < d.len() && d[w] == f[i];
                    assert(s[w] == f[i]);
                } else {
                    assert(f[i] == s.last());
                    assert(s[s.len() - 1] == s.last());
                }
            } else {
                assert(f[i] == d.filter(pred)[i]);
                assert(d.contains(f[i]));
                let w = choose|w: int| 0 <= w < d.len() && d[w] == f[i];
                assert(s[w] == f[i]);
            }
        }
    }
}

/// A filter of a leaf set with distinct paths again has distinct paths, and
/// stays well-formed.
pub proof fn lemma_filter_leaves_wf(s: Seq<(Seq<u8>, Seq<u8>)>, pred: spec_fn((Seq<u8>, Seq<u8>)) -> bool)
    requires
        leaves_wf(s),
    ensures
        leaves_wf(s.filter(pred)),
    decreases s.len(),
{
    reveal(Seq::filter);
    lemma_filter_subset(s, pred);
    let f = s.filter(pred);
    assert forall|i: int|
        0 <= i < f.len() implies (#[trigger] f[i]).0.len() == 64 && nibbles_valid(f[i].0) by {
        assert(s.contains(f[i]));
        let w = choose|w: int| 0 <= w < s.len() && s[w] == f[i];
        assert(s[w].0.len() == 64 && nibbles_valid(s[w].0));
    }
    if s.len() > 0 {
        let d = s.drop_last();
        assert(leaves_wf(d)) by {
            assert(forall|i: int| 0 <= i < d.len() ==> #[trigger] d[i] == s[i]);
        }
        lemma_filter_leaves_wf(d, pred);
        if pred(s.last()) {
            assert(f == d.filter(pred).push(s.last()));
            lemma_filter_subset(d, pred);
            assert forall|i: int, j: int|
                0 <= i < j < f.len() implies (#[trigger] f[i]).0 != (#[trigger] f[j]).0 by {
                let fd = d.filter(pred);
                if j < f.len() - 1 {
                    assert(f[i] == fd[i] && f[j] == fd[j]);
                } else {
                    assert(f[j] == s.last());
                    assert(f[i] == fd[i]);
                    assert(d.contains(fd[i]));
                    let w = choose|w: int| 0 <= w < d.len() && d[w] == fd[i];
                    assert(s[w] == fd[i]);
                    assert(s[w].0 != s[s.len() - 1].0);
                    assert(s.last() == s[s.len() - 1]);
                }
            }
        } else {
            assert(f == d.filter(pred));
        }
    }
}

/// The test for one subtree: the path extends `p`.
pub open spec fn prefix_pred(p: Seq<u8>) -> spec_fn((Seq<u8>, Seq<u8>)) -> bool {
    |e: (Seq<u8>, Seq<u8>)| p.is_prefix_of(e.0)
}

/// The leaves whose path extends `p`: the leaves of the subtree at `p`.
pub open spec fn prefix_filter(l: Seq<(Seq<u8>, Seq<u8>)>, p: Seq<u8>) -> Seq<
    (Seq<u8>, Seq<u8>),
> {
    l.filter(prefix_pred(p))
}

/// Filtering everything is keeping everything.
proof fn lemma_filter_true<A>(s: Seq<A>, pred: spec_fn(A) -> bool)
    requires
        forall|x: A| #[trigger] pred(x),
    ensures
        s.filter(pred) == s,
    decreases s.len(),
{
    reveal(Seq::filter);
    if s.len() > 0 {
        lemma_filter_true(s.drop_last(), pred);
        assert(s.filter(pred) =~= s);
    } else {
        assert(s.filter(pred) =~= s);
    }
}

/// The whole leaf set is the subtree at the empty path.
pub proof fn lemma_prefix_filter_empty(l: Seq<(Seq<u8>, Seq<u8>)>)
    ensures
        prefix_filter(l, Seq::<u8>::empty()) == l,
{
    let q = prefix_pred(Seq::<u8>::empty());
    assert forall|x: (Seq<u8>, Seq<u8>)| #[trigger] q(x) by {
        assert(Seq::<u8>::empty().is_prefix_of(x.0));
    }
    lemma_filter_true(l, q);
}

/// Selecting the child `n` of the subtree at `p` selects the subtree at
/// `p` extended by `n`.
pub proof fn lemma_prefix_step(full: Seq<(Seq<u8>, Seq<u8>)>, p: Seq<u8>, n: u8)
    ensures
        nibble_filter(prefix_filter(full, p), p.len() as int, n) == prefix_filter(
            full,
            p.push(n),
        ),
{
    let p1 = prefix_pred(p);
    let p2 = nibble_pred(p.len() as int, n);
    let q = prefix_pred(p.push(n));
    assert forall|x: (Seq<u8>, Seq<u8>)| #[trigger] q(x) == (p1(x) && p2(x)) by {
        if p1(x) && p2(x) {
            assert(p =~= x.0.take(p.len() as int));
            assert(p.push(n) =~= x.0.take(p.len() as int + 1));
            assert(p.push(n).is_prefix_of(x.0));
        }
        if q(x) {
            assert(p.push(n) =~= x.0.take(p.len() as int + 1));
            assert(p =~= x.0.take(p.len() as int));
            assert(p.is_prefix_of(x.0));
            assert(x.0[p.len() as int] == p.push(n)[p.len() as int]);
        }
    }
    lemma_filter_fusion(full, p1, p2, q);
}

/// The stored account-trie nodes agree with the leaf set, wherever the
/// prefix set does not mark the node's path as possibly changed: every
/// stored node outside the changed prefixes that carries a root hash
/// carries its subtree's true root.
pub open spec fn trie_ok(
    ts: Seq<(Nibbles, BranchNodeCompact)>,
    full: Seq<(Seq<u8>, Seq<u8>)>,
    pfx: PrefixSet,
) -> bool {
    forall|k: Seq<u8>|
        {
            let node = #[trigger] acct_lookup(ts, k);
            node is Some && node->0.root_hash is Some && !pfx.contains_spec(k) && k.len() <= 64
                ==> node->0.root_hash->0@ == subtree_root(prefix_filter(full, k), k.len())
        }
}

/// Zero has no set bits.
pub proof fn lemma_count_ones_zero(n: nat)
    ensures
        count_ones(0, n) == 0,
    decreases n,
{
    if n > 0 {
        lemma_count_ones_zero((n - 1) as nat);
    }
}

/// Every stored node that carries a root hash carries its subtree's true
/// root for the leaf set, whatever prefixes a range later marks as changed.
pub open spec fn trie_fully_ok(
    ts: Seq<(Nibbles, BranchNodeCompact)>,
    full: Seq<(Seq<u8>, Seq<u8>)>,
) -> bool {
    forall|k: Seq<u8>|
        {
            let node = #[trigger] acct_lookup(ts, k);
            node is Some && node->0.root_hash is Some && k.len() <= 64
                ==> node->0.root_hash->0@ == subtree_root(prefix_filter(full, k), k.len())
        }
}

/// A trie with no stored nodes vacuously agrees with any leaf set: a walk
/// over it can reuse nothing and computes every subtree from the leaves.
pub proof fn lemma_empty_trie_fully_ok(full: Seq<(Seq<u8>, Seq<u8>)>)
    ensures
        trie_fully_ok(Seq::<(Nibbles, BranchNodeCompact)>::empty(), full),
{
}

/// Stored nodes that agree with the leaves everywhere agree with them
/// outside any prefix set: an incremental walk over such nodes computes the
/// same root as a walk from scratch, whatever the changed prefixes.
pub proof fn lemma_fully_ok_any_prefix(
    ts: Seq<(Nibbles, BranchNodeCompact)>,
    full: Seq<(Seq<u8>, Seq<u8>)>,
    pfx: PrefixSet,
)
    requires
        trie_fully_ok(ts, full),
    ensures
        trie_ok(ts, full, pfx),
{
}

/// The changeset of a root computation: account-trie nodes to write back.
#[derive(Debug)]
pub struct TrieUpdates {
    /// Nodes keyed by account-trie path, each carrying its subtree's root
    /// hash.
    pub account_nodes: Vec<(Nibbles, BranchNodeCompact)>,
}

impl TrieUpdates {
    /// An empty changeset.
    pub fn new() -> (r: TrieUpdates)
        ensures
            r.account_nodes@.len() == 0,
    {
        TrieUpdates { account_nodes: Vec::new() }
    }

    /// Number of recorded nodes.
    pub fn len(&self) -> (r: usize)
        ensures
            r == self.account_nodes@.len(),
    {
        self.account_nodes.len()
    }
}

/// Every recorded update carries its subtree's true root for the leaf set.
pub open spec fn updates_all_ok(
    us: Seq<(Nibbles, BranchNodeCompact)>,
    full: Seq<(Seq<u8>, Seq<u8>)>,
) -> bool {
    forall|u: int| 0 <= u < us.len() ==> update_ok(#[trigger] us[u], full)
}

/// Some entry at or past position `lo` of the changeset is keyed by `p`.
pub open spec fn records_path(
    us: Seq<(Nibbles, BranchNodeCompact)>,
    lo: int,
    p: Seq<u8>,
) -> bool {
    exists|u: int| lo <= u < us.len() && (#[trigger] us[u]).0@ == p
}

/// A recorded update is a valid row for the account trie.
pub open spec fn update_valid(e: (Nibbles, BranchNodeCompact)) -> bool {
    nibbles_valid(e.0@) && e.0@.len() <= 64 && e.1.wf()
}

/// A recorded update carries its subtree's true root hash for the leaf set.
pub open spec fn update_ok(e: (Nibbles, BranchNodeCompact), full: Seq<(Seq<u8>, Seq<u8>)>)
    -> bool {
    e.1.root_hash is Some && e.1.root_hash->0@ == subtree_root(
        prefix_filter(full, e.0@),
        e.0@.len() as nat,
    )
}

/// The leaf views of a leaf vector.
pub open spec fn leaf_views(l: Seq<(Nibbles, Vec<u8>)>) -> Seq<(Seq<u8>, Seq<u8>)> {
    Seq::new(l.len(), |i: int| (l[i].0@, l[i].1@))
}

/// The leaves of `leaves` whose path carries nibble `nib` at `depth`.
pub fn filter_by_nibble(leaves: &Vec<(Nibbles, Vec<u8>)>, depth: usize, nib: u8) -> (r: Vec<
    (Nibbles, Vec<u8>),
>)
    ensures
        leaf_views(r@) == nibble_filter(leaf_views(leaves@), depth as int, nib),
{
    let ghost lv = leaf_views(leaves@);
    let ghost pred = nibble_pred(depth as int, nib);
    let mut out: Vec<(Nibbles, Vec<u8>)> = Vec::new();
    let n = leaves.len();
    let mut k: usize = 0;
    proof {
        reveal(Seq::filter);
        assert(lv.take(0) =~= Seq::<(Seq<u8>, Seq<u8>)>::empty());
        assert(leaf_views(out@) =~= lv.take(0).filter(pred));
    }
    while k < n
        invariant
            k <= n,
            n == leaves@.len(),
            lv == leaf_views(leaves@),
            pred == nibble_pred(depth as int, nib),
            leaf_views(out@) == lv.take(k as int).filter(pred),
        decreases n - k,
    {
        let ghost pre_out = out@;
        let e = &leaves[k];
        let hit = if e.0.len() > depth {
            e.0.get(depth) == nib
        } else {
            false
        };
        if hit {
            out.push((e.0.clone(), e.1.clone()));
        }
        proof {
            reveal(Seq::filter);
            let post = lv.take(k + 1);
            assert(post.drop_last() =~= lv.take(k as int));
            assert(post.last() == lv[k as int]);
            assert(lv[k as int] == (leaves@[k as int].0@, leaves@[k as int].1@));
            assert(hit == pred(lv[k as int]));
            if hit {
                assert(leaf_views(out@) =~= leaf_views(pre_out).push(lv[k as int]));
            } else {
                assert(leaf_views(out@) =~= leaf_views(pre_out));
            }
            assert(leaf_views(out@) =~= post.filter(pred));
        }
        k += 1;
    }
    proof {
        assert(lv.take(n as int) =~= lv);
    }
    out
}

/// The root hash of the subtree of the given leaves, computed from the
/// leaves alone.
pub fn compute_subtree(leaves: &Vec<(Nibbles, Vec<u8>)>, depth: usize) -> (r: B256)
    requires
        leaves_wf(leaf_views(leaves@)),
        shared_prefix(leaf_views(leaves@), depth as int),
        depth <= 64,
    ensures
        r@ == subtree_root(leaf_views(leaves@), depth as nat),
        r.wf(),
    decreases 64 - depth,
{
    let ghost lv = leaf_views(leaves@);
    let n = leaves.len();
    if n == 0 {
        let items: Vec<Vec<u8>> = Vec::new();
        let enc = rlp_encode_list(&items);
        proof {
            assert(byte_views(items@) =~= Seq::<Seq<u8>>::empty());
        }
        return keccak256(&enc);
    }
    if n == 1 {
        proof {
            assert(lv[0].0.len() == 64);
            assert(lv[0].0 == leaves@[0].0@);
        }
        let tail = leaves[0].0.suffix(depth);
        let mut items: Vec<Vec<u8>> = Vec::new();
        items.push(tail);
        items.push(leaves[0].1.clone());
        let enc = rlp_encode_list(&items);
        proof {
            assert(byte_views(items@) =~= seq![lv[0].0.skip(depth as int), lv[0].1]);
        }
        return keccak256(&enc);
    }
    proof {
        // two distinct complete paths cannot agree on all 64 nibbles
        if depth == 64 {
            assert(lv[0].0.take(64) == lv[1].0.take(64));
            assert(lv[0].0.take(64) =~= lv[0].0);
            assert(lv[1].0.take(64) =~= lv[1].0);
            assert(false);
        }
    }
    let mut items: Vec<Vec<u8>> = Vec::new();
    let mut nib: u8 = 0;
    proof {
        assert(byte_views(items@) + children_encodings(lv, depth as nat, 0)
            =~= children_encodings(lv, depth as nat, 0));
    }
    while nib < 16
        invariant
            nib <= 16,
            depth < 64,
            leaves_wf(lv),
            shared_prefix(lv, depth as int),
            lv == leaf_views(leaves@),
            lv.len() >= 2,
            byte_views(items@) + children_encodings(lv, depth as nat, nib as nat)
                == children_encodings(lv, depth as nat, 0),
        decreases 16 - nib,
    {
        let ghost pre_items = items@;
        let sub = filter_by_nibble(leaves, depth, nib);
        let ghost sv = leaf_views(sub@);
        proof {
            let pred = nibble_pred(depth as int, nib);
            lemma_filter_leaves_wf(lv, pred);
            lemma_filter_subset(lv, pred);
            assert forall|i: int, j: int|
                0 <= i < sv.len() && 0 <= j < sv.len() implies (#[trigger] sv[i]).0.take(
                depth + 1,
            ) == (#[trigger] sv[j]).0.take(depth + 1) by {
                assert(lv.contains(sv[i]));
                assert(lv.contains(sv[j]));
                let wi = choose|w: int| 0 <= w < lv.len() && lv[w] == sv[i];
                let wj = choose|w: int| 0 <= w < lv.len() && lv[w] == sv[j];
                assert(lv[wi].0.take(depth as int) == lv[wj].0.take(depth as int));
                assert(pred(sv[i]) && pred(sv[j]));
                assert(sv[i].0.take(depth + 1) =~= sv[j].0.take(depth + 1));
            }
        }
        if sub.len() == 0 {
            items.push(Vec::new());
        } else {
            let child = compute_subtree(&sub, depth + 1);
            items.push(child.bytes);
        }
        proof {
            let d = depth as nat;
            let ghost child_spec = if sv.len() == 0 {
                Seq::<u8>::empty()
            } else {
                subtree_root(sv, d + 1)
            };
            assert(byte_views(items@) =~= byte_views(pre_items).push(child_spec));
            assert(children_encodings(lv, d, nib as nat) == seq![child_spec]
                + children_encodings(lv, d, nib as nat + 1));
            assert(byte_views(items@) + children_encodings(lv, d, nib as nat + 1)
                =~= byte_views(pre_items) + children_encodings(lv, d, nib as nat));
        }
        nib += 1;
    }
    proof {
        assert(children_encodings(lv, depth as nat, 16) =~= Seq::<Seq<u8>>::empty());
        assert(byte_views(items@) =~= children_encodings(lv, depth as nat, 0));
    }
    let enc = rlp_encode_list(&items);
    keccak256(&enc)
}

/// The node a changeset binds to path `k`: the last recorded node for that
/// path, if the changeset holds one.
pub open spec fn updates_lookup(
    us: Seq<(Nibbles, BranchNodeCompact)>,
    k: Seq<u8>,
) -> Option<BranchNodeCompact>
    decreases us.len(),
{
    if us.len() == 0 {
        None
    } else if us.last().0@ == k {
        Some(us.last().1)
    } else {
        updates_lookup(us.drop_last(), k)
    }
}

/// Persist a changeset into the account trie: each recorded path ends up
/// bound to its recorded node (the last occurrence of the path winning),
/// and every other path keeps its old binding. A trie whose stored nodes
/// all agreed with a leaf set still agrees after absorbing a changeset
/// that agrees with it; in particular, applying the updates of a completed
/// walk to an empty trie leaves every stored node agreeing with the walked
/// leaves, so a later incremental walk returns the same root a
/// from-scratch walk does.
pub fn apply_updates(trie: &mut AccountsTrieTable, updates: &TrieUpdates)
    requires
        old(trie).wf(),
        forall|u: int|
            0 <= u < updates.account_nodes@.len() ==> update_valid(
                #[trigger] updates.account_nodes@[u],
            ),
    ensures
        final(trie).wf(),
        forall|k: Seq<u8>|
            #[trigger] updates_lookup(updates.account_nodes@, k) is Some ==> acct_lookup(
                final(trie)@,
                k,
            ) is Some && node_matches(
                acct_lookup(final(trie)@, k)->0,
                updates_lookup(updates.account_nodes@, k)->0,
            ),
        forall|k: Seq<u8>|
            #[trigger] updates_lookup(updates.account_nodes@, k) is None ==> acct_lookup(
                final(trie)@,
                k,
            ) == acct_lookup(old(trie)@, k),
        forall|full: Seq<(Seq<u8>, Seq<u8>)>|
            (#[trigger] trie_fully_ok(old(trie)@, full) && updates_all_ok(
                updates.account_nodes@,
                full,
            )) ==> trie_fully_ok(final(trie)@, full),
{
    let ghost orig = trie@;
    let n = updates.account_nodes.len();
    let mut i: usize = 0;
    while i < n
        invariant
            i <= n,
            n == updates.account_nodes@.len(),
            trie.wf(),
            forall|u: int|
                0 <= u < updates.account_nodes@.len() ==> update_valid(
                    #[trigger] updates.account_nodes@[u],
                ),
            forall|k: Seq<u8>|
                #[trigger] updates_lookup(updates.account_nodes@.take(i as int), k) is Some
                    ==> acct_lookup(trie@, k) is Some && node_matches(
                    acct_lookup(trie@, k)->0,
                    updates_lookup(updates.account_nodes@.take(i as int), k)->0,
                ),
            forall|k: Seq<u8>|
                #[trigger] updates_lookup(updates.account_nodes@.take(i as int), k) is None
                    ==> acct_lookup(trie@, k) == acct_lookup(orig, k),
            forall|full: Seq<(Seq<u8>, Seq<u8>)>|
                (#[trigger] trie_fully_ok(orig, full) && updates_all_ok(
                    updates.account_nodes@,
                    full,
                )) ==> trie_fully_ok(trie@, full),
        decreases n - i,
    {
        let ghost mid = trie@;
        let entry = &updates.account_nodes[i];
        let path = entry.0.clone();
        let node = entry.1.clone();
        let ghost key = path@;
        trie.upsert(path, node);
        proof {
            let us = updates.account_nodes@;
            let pre = us.take(i as int);
            let post = us.take(i + 1);
            assert(post.drop_last() =~= pre);
            assert(post.last() == us[i as int]);
            assert forall|k: Seq<u8>|
                #[trigger] updates_lookup(post, k) is Some implies acct_lookup(
                trie@,
                k,
            ) is Some && node_matches(acct_lookup(trie@, k)->0, updates_lookup(post, k)->0) by {
                if k == key {
                    assert(updates_lookup(post, k) == Some(us[i as int].1));
                    assert(acct_lookup(trie@, k) == Some(node));
                } else {
                    assert(updates_lookup(post, k) == updates_lookup(pre, k));
                    assert(acct_lookup(trie@, k) == acct_lookup(mid, k));
                }
            }
            assert forall|k: Seq<u8>|
                #[trigger] updates_lookup(post, k) is None implies acct_lookup(trie@, k)
                    == acct_lookup(orig, k) by {
                assert(k != key);
                assert(updates_lookup(post, k) == updates_lookup(pre, k));
                assert(acct_lookup(trie@, k) == acct_lookup(mid, k));
            }
            assert forall|full: Seq<(Seq<u8>, Seq<u8>)>|
                (#[trigger] trie_fully_ok(orig, full) && updates_all_ok(
                    updates.account_nodes@,
                    full,
                )) implies trie_fully_ok(trie@, full) by {
                assert(trie_fully_ok(mid, full));
                assert forall|k: Seq<u8>|
                    {
                        let looked = #[trigger] acct_lookup(trie@, k);
                        looked is Some && looked->0.root_hash is Some && k.len() <= 64
                            ==> looked->0.root_hash->0@ == subtree_root(
                            prefix_filter(full, k),
                            k.len(),
                        )
                    } by {
                    let looked = acct_lookup(trie@, k);
                    if looked is Some && looked->0.root_hash is Some && k.len() <= 64 {
                        if k == key {
                            assert(looked->0 == node);
                            assert(update_ok(updates.account_nodes@[i as int], full));
                            assert(node.root_hash->0@ == updates.account_nodes@[
                                i as int
                            ].1.root_hash->0@);
                        } else {
                            assert(acct_lookup(trie@, k) == acct_lookup(mid, k));
                        }
                    }
                }
            }
        }
        i += 1;
    }
    proof {
        assert(updates.account_nodes@.take(n as int) =~= updates.account_nodes@);
    }
}

/// The root hash of the subtree at `path`, reusing the hash of a stored
/// node wherever the prefix set does not mark the path as changed, and
/// recording recomputed branch nodes when `collect` is set. The result is
/// the subtree's true root whenever the stored nodes agree with the leaves
/// outside the changed prefixes.
#[verifier::rlimit(60)]
pub fn compute_subtree_cached(
    leaves: &Vec<(Nibbles, Vec<u8>)>,
    path: &Nibbles,
    trie: &AccountsTrieTable,
    pfx: &PrefixSet,
    collect: bool,
    updates: &mut TrieUpdates,
    Ghost(full): Ghost<Seq<(Seq<u8>, Seq<u8>)>>,
) -> (r: B256)
    requires
        leaves_wf(full),
        trie.wf(),
        nibbles_valid(path@),
        path@.len() <= 64,
        leaf_views(leaves@) == prefix_filter(full, path@),
        forall|u: int|
            0 <= u < old(updates).account_nodes@.len() ==> update_valid(
                #[trigger] old(updates).account_nodes@[u],
            ),
    ensures
        r.wf(),
        trie_ok(trie@, full, *pfx) ==> r@ == subtree_root(
            leaf_views(leaves@),
            path@.len() as nat,
        ),
        final(updates).account_nodes@.len() >= old(updates).account_nodes@.len(),
        final(updates).account_nodes@.take(old(updates).account_nodes@.len() as int) == old(
            updates,
        ).account_nodes@,
        forall|u: int|
            0 <= u < final(updates).account_nodes@.len() ==> update_valid(
                #[trigger] final(updates).account_nodes@[u],
            ),
        trie_ok(trie@, full, *pfx) ==> forall|u: int|
            old(updates).account_nodes@.len() <= u < final(updates).account_nodes@.len()
                ==> update_ok(#[trigger] final(updates).account_nodes@[u], full),
        (collect && leaf_views(leaves@).len() >= 2 && (pfx.contains_spec(path@) || !(
        acct_lookup(trie@, path@) is Some && acct_lookup(trie@, path@)->0.root_hash is Some)))
            ==> records_path(
            final(updates).account_nodes@,
            old(updates).account_nodes@.len() as int,
            path@,
        ),
    decreases 64 - path@.len(),
{
    let depth = path.len();
    let ghost lv = leaf_views(leaves@);
    proof {
        lemma_filter_leaves_wf(full, prefix_pred(path@));
        lemma_filter_subset(full, prefix_pred(path@));
        assert forall|i: int, j: int|
            0 <= i < lv.len() && 0 <= j < lv.len() implies (#[trigger] lv[i]).0.take(
            depth as int,
        ) == (#[trigger] lv[j]).0.take(depth as int) by {
            assert(prefix_pred(path@)(lv[i]) && prefix_pred(path@)(lv[j]));
            assert(lv[i].0.take(depth as int) =~= path@);
            assert(lv[j].0.take(depth as int) =~= path@);
        }
    }
    if !pfx.contains(path) {
        let mut cursor = DatabaseAccountTrieCursor::new();
        let found = match cursor.seek_exact(trie, path.clone()) {
            Ok(f) => f,
            Err(_) => None,
        };
        if let Some((_, node)) = found {
            if let Some(h) = node.root_hash {
                proof {
                    let stored = acct_lookup(trie@, path@);
                    assert(stored is Some);
                    assert(stored->0.root_hash is Some);
                    assert(h@ == stored->0.root_hash->0@);
                    lemma_acct_lookup_exists(trie@, path@);
                    let w = choose|w: int|
                        0 <= w < trie@.len() && (#[trigger] trie@[w].0)@ == path@;
                    lemma_acct_lookup_present(trie@, path@, w);
                    assert(trie@[w].1.wf());
                    assert(stored->0.root_hash->0.wf());
                }
                return h;
            }
        }
    }
    let n = leaves.len();
    if n == 0 {
        let items: Vec<Vec<u8>> = Vec::new();
        let enc = rlp_encode_list(&items);
        proof {
            assert(byte_views(items@) =~= Seq::<Seq<u8>>::empty());
        }
        return keccak256(&enc);
    }
    if n == 1 {
        proof {
            assert(lv[0].0.len() == 64);
            assert(lv[0].0 == leaves@[0].0@);
        }
        let tail = leaves[0].0.suffix(depth);
        let mut items: Vec<Vec<u8>> = Vec::new();
        items.push(tail);
        items.push(leaves[0].1.clone());
        let enc = rlp_encode_list(&items);
        proof {
            assert(byte_views(items@) =~= seq![lv[0].0.skip(depth as int), lv[0].1]);
        }
        return keccak256(&enc);
    }
    proof {
        if depth == 64 {
            assert(lv[0].0.take(64) == lv[1].0.take(64));
            assert(lv[0].0.take(64) =~= lv[0].0);
            assert(lv[1].0.take(64) =~= lv[1].0);
            assert(false);
        }
    }
    let ghost orig_updates = updates.account_nodes@;
    let mut items: Vec<Vec<u8>> = Vec::new();
    let mut state_mask: u16 = 0;
    let mut nib: u8 = 0;
    proof {
        assert(byte_views(items@) + children_encodings(lv, depth as nat, 0)
            =~= children_encodings(lv, depth as nat, 0));
        assert(updates.account_nodes@.take(orig_updates.len() as int) =~= orig_updates);
    }
    while nib < 16
        invariant
            nib <= 16,
            depth < 64,
            depth == path@.len(),
            nibbles_valid(path@),
            leaves_wf(full),
            trie.wf(),
            lv == leaf_views(leaves@),
            lv == prefix_filter(full, path@),
            lv.len() >= 2,
            trie_ok(trie@, full, *pfx) ==> byte_views(items@) + children_encodings(
                lv,
                depth as nat,
                nib as nat,
            ) == children_encodings(lv, depth as nat, 0),
            items@.len() == nib,
            updates.account_nodes@.len() >= orig_updates.len(),
            updates.account_nodes@.take(orig_updates.len() as int) == orig_updates,
            forall|u: int|
                0 <= u < updates.account_nodes@.len() ==> update_valid(
                    #[trigger] updates.account_nodes@[u],
                ),
            trie_ok(trie@, full, *pfx) ==> forall|u: int|
                orig_updates.len() <= u < updates.account_nodes@.len() ==> update_ok(
                    #[trigger] updates.account_nodes@[u],
                    full,
                ),
        decreases 16 - nib,
    {
        let ghost pre_items = items@;
        let ghost pre_updates = updates.account_nodes@;
        let sub = filter_by_nibble(leaves, depth, nib);
        let ghost sv = leaf_views(sub@);
        let mut child_path = path.clone();
        child_path.push(nib);
        proof {
            lemma_prefix_step(full, path@, nib);
            assert(sv == prefix_filter(full, child_path@));
        }
        if sub.len() == 0 {
            items.push(Vec::new());
        } else {
            let child = compute_subtree_cached(
                &sub,
                &child_path,
                trie,
                pfx,
                collect,
                updates,
                Ghost(full),
            );
            let ghost chv = child@;
            items.push(child.bytes);
            state_mask = state_mask | (1u16 << (nib as u16));
            proof {
                if trie_ok(trie@, full, *pfx) {
                    lemma_filter_leaves_wf(full, prefix_pred(child_path@));
                    assert(chv == subtree_root(sv, depth as nat + 1));
                }
                assert(updates.account_nodes@.take(orig_updates.len() as int)
                    =~= orig_updates) by {
                    assert(updates.account_nodes@.take(pre_updates.len() as int)
                        == pre_updates);
                    assert(pre_updates.take(orig_updates.len() as int) == orig_updates);
                    assert forall|x: int| 0 <= x < orig_updates.len() implies
                        updates.account_nodes@.take(orig_updates.len() as int)[x]
                            == orig_updates[x] by {
                        assert(updates.account_nodes@[x]
                            == updates.account_nodes@.take(pre_updates.len() as int)[x]);
                        assert(pre_updates[x] == pre_updates.take(
                            orig_updates.len() as int)[x]);
                    }
                }
                if trie_ok(trie@, full, *pfx) {
                    assert forall|u: int|
                        orig_updates.len() <= u < updates.account_nodes@.len() implies
                        update_ok(#[trigger] updates.account_nodes@[u], full) by {
                        if u < pre_updates.len() {
                            assert(updates.account_nodes@[u] == updates.account_nodes@.take(
                                pre_updates.len() as int)[u]);
                            assert(updates.account_nodes@[u] == pre_updates[u]);
                        }
                    }
                }
            }
        }
        proof {
            let d = depth as nat;
            let ghost child_spec = if sv.len() == 0 {
                Seq::<u8>::empty()
            } else {
                subtree_root(sv, d + 1)
            };
            if trie_ok(trie@, full, *pfx) {
                assert(byte_views(items@) =~= byte_views(pre_items).push(child_spec));
            } else {
                // without agreement the computed bytes may differ from the
                // specification's children; nothing is claimed of them then
            }
            assert(children_encodings(lv, d, nib as nat) == seq![child_spec]
                + children_encodings(lv, d, nib as nat + 1));
            if trie_ok(trie@, full, *pfx) {
                assert(byte_views(items@) + children_encodings(lv, d, nib as nat + 1)
                    =~= byte_views(pre_items) + children_encodings(lv, d, nib as nat));
            }
        }
        nib += 1;
    }
    proof {
        assert(children_encodings(lv, depth as nat, 16) =~= Seq::<Seq<u8>>::empty());
        if trie_ok(trie@, full, *pfx) {
            assert(byte_views(items@) =~= children_encodings(lv, depth as nat, 0));
        }
    }
    let enc = rlp_encode_list(&items);
    let h = keccak256(&enc);
    if collect {
        let ghost pre_updates = updates.account_nodes@;
        let node = BranchNodeCompact {
            state_mask,
            tree_mask: 0,
            hash_mask: 0,
            hashes: Vec::new(),
            root_hash: Some(h.clone()),
        };
        proof {
            assert(0u16 & state_mask == 0) by (bit_vector);
            lemma_count_ones_zero(16);
            assert(node.wf());
        }
        let ghost pushed_path = path@;
        let ghost pushed_node = node;
        updates.account_nodes.push((path.clone(), node));
        proof {
            assert(updates.account_nodes@.take(orig_updates.len() as int) =~= orig_updates)
                by {
                assert(pre_updates.take(orig_updates.len() as int) == orig_updates);
                assert forall|x: int| 0 <= x < orig_updates.len() implies
                    updates.account_nodes@.take(orig_updates.len() as int)[x]
                        == orig_updates[x] by {
                    assert(updates.account_nodes@[x] == pre_updates[x]);
                    assert(pre_updates[x] == pre_updates.take(orig_updates.len() as int)[x]);
                }
            }
            let last = updates.account_nodes@.len() - 1;
            assert(updates.account_nodes@[last].0@ == pushed_path);
            assert(updates.account_nodes@[last].1 == pushed_node);
            assert(update_valid(updates.account_nodes@[last]));
            assert(orig_updates.len() <= last < updates.account_nodes@.len()
                && updates.account_nodes@[last].0@ == path@);
            assert(records_path(updates.account_nodes@, orig_updates.len() as int, path@));
            if trie_ok(trie@, full, *pfx) {
                assert(pushed_node.root_hash->0@ == subtree_root(
                    prefix_filter(full, pushed_path),
                    pushed_path.len() as nat,
                ));
                assert(update_ok(updates.account_nodes@[last], full));
                assert forall|u: int|
                    orig_updates.len() <= u < updates.account_nodes@.len() implies
                    update_ok(#[trigger] updates.account_nodes@[u], full) by {
                    if u < last {
                        assert(updates.account_nodes@[u] == pre_updates[u]);
                    }
                }
            }
        }
    }
    h
}

} // verus!
