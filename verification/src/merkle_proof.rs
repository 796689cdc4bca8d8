//! Merkle proof generation: walk the stored account-trie nodes along the
//! path to a target key, collecting the minimal ordered node set that backs
//! an inclusion or exclusion proof. Read-only: nothing is mutated and no
//! root is computed.

use vstd::prelude::*;
use crate::nibbles::{Nibbles, nibbles_valid};
use crate::node::{BranchNodeCompact, node_matches};
use crate::store::{AccountsTrieTable, acct_lookup};
use crate::trie_cursor::DatabaseAccountTrieCursor;

verus! {

/// The stored account-trie nodes along the path from the root to `target`:
/// for every prefix of `target` that has a stored node, that node, ordered
/// from the root downward.
pub fn account_proof(table: &AccountsTrieTable, target: &Nibbles) -> (r: Vec<
    (Nibbles, BranchNodeCompact),
>)
    requires
        table.wf(),
        nibbles_valid(target@),
        target@.len() < usize::MAX,
    ensures
        forall|j: int|
            0 <= j < r@.len() ==> (#[trigger] r@[j]).0@.is_prefix_of(target@) && acct_lookup(
                table@,
                r@[j].0@,
            ) is Some && node_matches(r@[j].1, acct_lookup(table@, r@[j].0@)->0),
        forall|j1: int, j2: int|
            0 <= j1 < j2 < r@.len() ==> (#[trigger] r@[j1]).0@.len() < (#[trigger] r@[
                j2
            ]).0@.len(),
        forall|d: int|
            0 <= d <= target@.len() && acct_lookup(table@, target@.take(d)) is Some
                ==> exists|j: int| 0 <= j < r@.len() && (#[trigger] r@[j]).0@ == target@.take(d),
{
    let mut out: Vec<(Nibbles, BranchNodeCompact)> = Vec::new();
    let mut prefix = Nibbles::empty();
    let mut cursor = DatabaseAccountTrieCursor::new();
    let n = target.len();
    let mut d: usize = 0;
    proof {
        assert(target@.take(0) =~= prefix@);
    }
    while d <= n
        invariant
            d <= n + 1,
            n < usize::MAX,
            n == target@.len(),
            table.wf(),
            nibbles_valid(target@),
            d <= n ==> prefix@ == target@.take(d as int),
            forall|j: int|
                0 <= j < out@.len() ==> (#[trigger] out@[j]).0@.is_prefix_of(target@)
                    && acct_lookup(table@, out@[j].0@) is Some && node_matches(
                    out@[j].1,
                    acct_lookup(table@, out@[j].0@)->0,
                ),
            forall|j: int| 0 <= j < out@.len() ==> (#[trigger] out@[j]).0@.len() < d,
            forall|j1: int, j2: int|
                0 <= j1 < j2 < out@.len() ==> (#[trigger] out@[j1]).0@.len() < (#[trigger] out@[
                    j2
                ]).0@.len(),
            forall|e: int|
                0 <= e < d && acct_lookup(table@, target@.take(e)) is Some ==> exists|j: int|
                    0 <= j < out@.len() && (#[trigger] out@[j]).0@ == target@.take(e),
        decreases n + 1 - d,
    {
        let found = match cursor.seek_exact(table, prefix.clone()) {
            Ok(f) => f,
            Err(_) => None,
        };
        let ghost pre = out@;
        if let Some(e) = found {
            proof {
                assert(e.0@ == target@.take(d as int));
                assert(target@.take(d as int) =~= target@.subrange(0, d as int));
                assert(target@.take(d as int).is_prefix_of(target@));
            }
            out.push(e);
            proof {
                let last = out@.len() - 1;
                assert(out@[last].0@ == target@.take(d as int));
                assert forall|e2: int|
                    0 <= e2 < d + 1 && acct_lookup(table@, target@.take(e2)) is Some implies
                    exists|j: int|
                        0 <= j < out@.len() && (#[trigger] out@[j]).0@ == target@.take(e2) by {
                    if e2 < d {
                        let j = choose|j: int|
                            0 <= j < pre.len() && (#[trigger] pre[j]).0@ == target@.take(e2);
                        assert(out@[j].0@ == target@.take(e2));
                    } else {
                        assert(out@[last].0@ == target@.take(e2));
                    }
                }
            }
        } else {
            proof {
                assert forall|e2: int|
                    0 <= e2 < d + 1 && acct_lookup(table@, target@.take(e2)) is Some implies
                    exists|j: int|
                        0 <= j < out@.len() && (#[trigger] out@[j]).0@ == target@.take(e2) by {
                    if e2 < d {
                        let j = choose|j: int|
                            0 <= j < pre.len() && (#[trigger] pre[j]).0@ == target@.take(e2);
                        assert(out@[j].0@ == target@.take(e2));
                    }
                }
            }
        }
        if d < n {
            let nb = target.get(d);
            prefix.push(nb);
            proof {
                assert(prefix@ =~= target@.take(d + 1));
            }
        }
        d += 1;
    }
    proof {
        assert forall|e: int|
            0 <= e <= target@.len() && acct_lookup(table@, target@.take(e)) is Some implies
            exists|j: int| 0 <= j < out@.len() && (#[trigger] out@[j]).0@ == target@.take(e) by {
            assert(e < n + 1);
        }
    }
    out
}

/// The proof node sets for several target keys: one ordered node set per
/// target, each collected by [`account_proof`].
pub fn account_proofs(table: &AccountsTrieTable, targets: &Vec<Nibbles>) -> (r: Vec<
    Vec<(Nibbles, BranchNodeCompact)>,
>)
    requires
        table.wf(),
        forall|t: int|
            0 <= t < targets@.len() ==> nibbles_valid((#[trigger] targets@[t])@)
                && targets@[t]@.len() < usize::MAX,
    ensures
        r@.len() == targets@.len(),
        forall|t: int, j: int|
            0 <= t < r@.len() && 0 <= j < r@[t]@.len() ==> (#[trigger] r@[t]@[
                j
            ]).0@.is_prefix_of(targets@[t]@) && acct_lookup(table@, r@[t]@[j].0@) is Some,
        forall|t: int, d: int|
            0 <= t < r@.len() && 0 <= d <= targets@[t]@.len() && acct_lookup(
                table@,
                targets@[t]@.take(d),
            ) is Some ==> exists|j: int|
                0 <= j < r@[t]@.len() && (#[trigger] r@[t]@[j]).0@ == targets@[t]@.take(d),
{
    let mut out: Vec<Vec<(Nibbles, BranchNodeCompact)>> = Vec::new();
    let n = targets.len();
    let mut t: usize = 0;
    while t < n
        invariant
            t <= n,
            n == targets@.len(),
            table.wf(),
            forall|x: int|
                0 <= x < targets@.len() ==> nibbles_valid((#[trigger] targets@[x])@)
                    && targets@[x]@.len() < usize::MAX,
            out@.len() == t,
            forall|x: int, j: int|
                0 <= x < t && 0 <= j < out@[x]@.len() ==> (#[trigger] out@[x]@[
                    j
                ]).0@.is_prefix_of(targets@[x]@) && acct_lookup(table@, out@[x]@[j].0@) is Some,
            forall|x: int, d: int|
                0 <= x < t && 0 <= d <= targets@[x]@.len() && acct_lookup(
                    table@,
                    targets@[x]@.take(d),
                ) is Some ==> exists|j: int|
                    0 <= j < out@[x]@.len() && (#[trigger] out@[x]@[j]).0@ == targets@[
                        x
                    ]@.take(d),
        decreases n - t,
    {
        let one = account_proof(table, &targets[t]);
        let ghost pre_out = out@;
        let ghost onev = one@;
        out.push(one);
        proof {
            let ti = t as int;
            assert(out@[ti]@ == onev);
            assert forall|x: int, j: int|
                0 <= x < ti + 1 && 0 <= j < out@[x]@.len() implies (#[trigger] out@[x]@[
                j
            ]).0@.is_prefix_of(targets@[x]@) && acct_lookup(table@, out@[x]@[j].0@) is Some by {
                if x < ti {
                    assert(out@[x] == pre_out[x]);
                } else {
                    assert(out@[x]@[j] == onev[j]);
                }
            }
            assert forall|x: int, d: int|
                0 <= x < ti + 1 && 0 <= d <= targets@[x]@.len() && acct_lookup(
                    table@,
                    targets@[x]@.take(d),
                ) is Some implies exists|j: int|
                    0 <= j < out@[x]@.len() && (#[trigger] out@[x]@[j]).0@ == targets@[
                        x
                    ]@.take(d) by {
                if x < ti {
                    assert(out@[x] == pre_out[x]);
                    let j = choose|j: int|
                        0 <= j < pre_out[x]@.len() && (#[trigger] pre_out[x]@[j]).0@
                            == targets@[x]@.take(d);
                    assert(out@[x]@[j].0@ == targets@[x]@.take(d));
                } else {
                    let j = choose|j: int|
                        0 <= j < onev.len() && (#[trigger] onev[j]).0@ == targets@[x]@.take(d);
                    assert(out@[x]@[j].0@ == targets@[x]@.take(d));
                }
            }
        }
        t += 1;
    }
    out
}

} // verus!
