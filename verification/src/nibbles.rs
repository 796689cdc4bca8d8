//! Nibble-path keys for trie nodes and the lexicographic order over them.
//!
//! A trie path is a sequence of nibbles (4-bit values); a complete leaf path
//! holds 64 nibbles, unpacked from a 32-byte hash. Lexicographic comparison
//! nibble by nibble is the canonical ordering of trie-node keys, and the
//! ordering the backing store must realize.

use vstd::prelude::*;

verus! {

/// Strict lexicographic order over byte sequences: `a` comes before `b`.
///
/// A proper prefix comes before its extensions; otherwise the first
/// differing position decides.
pub open spec fn lex_lt(a: Seq<u8>, b: Seq<u8>) -> bool
    decreases a.len(),
{
    if b.len() == 0 {
        false
    } else if a.len() == 0 {
        true
    } else if a[0] < b[0] {
        true
    } else if a[0] > b[0] {
        false
    } else {
        lex_lt(a.skip(1), b.skip(1))
    }
}

/// Non-strict companion of [`lex_lt`].
pub open spec fn lex_le(a: Seq<u8>, b: Seq<u8>) -> bool {
    lex_lt(a, b) || a == b
}

/// The order is irreflexive.
pub proof fn lemma_lex_lt_irrefl(a: Seq<u8>)
    ensures
        !lex_lt(a, a),
    decreases a.len(),
{
    if a.len() > 0 {
        lemma_lex_lt_irrefl(a.skip(1));
    }
}

/// Any two sequences are ordered one way or the other, or are equal.
pub proof fn lemma_lex_lt_total(a: Seq<u8>, b: Seq<u8>)
    ensures
        lex_lt(a, b) || lex_lt(b, a) || a == b,
    decreases a.len(),
{
    if a.len() == 0 {
        if b.len() == 0 {
            assert(a =~= b);
        }
    } else if b.len() == 0 {
    } else if a[0] == b[0] {
        lemma_lex_lt_total(a.skip(1), b.skip(1));
        if a.skip(1) == b.skip(1) {
            assert(a.skip(1).len() == a.len() - 1);
            assert(b.skip(1).len() == b.len() - 1);
            assert(a.len() == b.len());
            assert forall|i: int| 0 <= i < a.len() implies a[i] == b[i] by {
                if i >= 1 {
                    assert(a.skip(1)[i - 1] == a[i]);
                    assert(b.skip(1)[i - 1] == b[i]);
                }
            }
            assert(a =~= b);
        }
    }
}

/// At most one of `lex_lt(a, b)` and `lex_lt(b, a)` holds.
pub proof fn lemma_lex_lt_asymm(a: Seq<u8>, b: Seq<u8>)
    ensures
        !(lex_lt(a, b) && lex_lt(b, a)),
    decreases a.len(),
{
    if a.len() > 0 && b.len() > 0 && a[0] == b[0] {
        lemma_lex_lt_asymm(a.skip(1), b.skip(1));
    }
}

/// The order is transitive.
pub proof fn lemma_lex_lt_trans(a: Seq<u8>, b: Seq<u8>, c: Seq<u8>)
    requires
        lex_lt(a, b),
        lex_lt(b, c),
    ensures
        lex_lt(a, c),
    decreases a.len(),
{
    if a.len() > 0 && b.len() > 0 && c.len() > 0 && a[0] == b[0] && b[0] == c[0] {
        lemma_lex_lt_trans(a.skip(1), b.skip(1), c.skip(1));
    }
}

/// Comparison only looks past a common prefix: dropping one shared leading
/// byte leaves the order unchanged.
pub proof fn lemma_lex_lt_skip_common(a: Seq<u8>, b: Seq<u8>)
    requires
        a.len() > 0,
        b.len() > 0,
        a[0] == b[0],
    ensures
        lex_lt(a, b) == lex_lt(a.skip(1), b.skip(1)),
{
}

/// A nibble-path key: an ordered sequence of 4-bit values.
#[derive(Debug)]
pub struct Nibbles {
    pub data: Vec<u8>,
}

impl Clone for Nibbles {
    fn clone(&self) -> (r: Self)
        ensures
            r@ == self@,
    {
        Nibbles { data: self.data.clone() }
    }
}

impl View for Nibbles {
    type V = Seq<u8>;

    open spec fn view(&self) -> Seq<u8> {
        self.data@
    }
}

/// All positions of a nibble sequence hold values below 16.
pub open spec fn nibbles_valid(s: Seq<u8>) -> bool {
    forall|i: int| 0 <= i < s.len() ==> s[i] < 16
}

impl Nibbles {
    /// Well-formedness: every element is a nibble.
    pub open spec fn wf(&self) -> bool {
        nibbles_valid(self@)
    }

    /// Build a path from raw nibble values.
    pub fn from_vec(data: Vec<u8>) -> (r: Nibbles)
        requires
            nibbles_valid(data@),
        ensures
            r@ == data@,
            r.wf(),
    {
        Nibbles { data }
    }

    /// The empty path.
    pub fn empty() -> (r: Nibbles)
        ensures
            r@ == Seq::<u8>::empty(),
            r.wf(),
    {
        Nibbles { data: Vec::new() }
    }

    /// Number of nibbles in the path.
    pub fn len(&self) -> (r: usize)
        ensures
            r == self@.len(),
    {
        self.data.len()
    }

    /// The nibble at position `i`.
    pub fn get(&self, i: usize) -> (r: u8)
        requires
            i < self@.len(),
        ensures
            r == self@[i as int],
    {
        self.data[i]
    }

    /// Append one nibble.
    pub fn push(&mut self, nibble: u8)
        requires
            nibble < 16,
        ensures
            final(self)@ == old(self)@.push(nibble),
    {
        self.data.push(nibble);
    }

    /// The nibbles from position `start` to the end, as raw values.
    pub fn suffix(&self, start: usize) -> (r: Vec<u8>)
        requires
            start <= self@.len(),
        ensures
            r@ == self@.skip(start as int),
    {
        let mut out: Vec<u8> = Vec::new();
        let mut i: usize = start;
        while i < self.data.len()
            invariant
                start <= i <= self@.len(),
                self@.len() == self.data@.len(),
                out@ == self@.subrange(start as int, i as int),
            decreases self@.len() - i,
        {
            out.push(self.data[i]);
            assert(out@ =~= self@.subrange(start as int, i + 1));
            i += 1;
        }
        assert(out@ =~= self@.skip(start as int));
        out
    }
}

/// Exact equality of two byte vectors.
pub fn bytes_eq(a: &Vec<u8>, b: &Vec<u8>) -> (r: bool)
    ensures
        r == (a@ == b@),
{
    if a.len() != b.len() {
        proof {
            assert(a@.len() != b@.len());
        }
        return false;
    }
    let n: usize = a.len();
    let mut i: usize = 0;
    while i < n
        invariant
            i <= n,
            n == a@.len(),
            n == b@.len(),
            forall|j: int| 0 <= j < i ==> a@[j] == b@[j],
        decreases n - i,
    {
        if a[i] != b[i] {
            return false;
        }
        i += 1;
    }
    proof {
        assert(a@ =~= b@);
    }
    true
}

/// Decides [`lex_lt`] over two byte vectors.
pub fn bytes_lt(a: &Vec<u8>, b: &Vec<u8>) -> (r: bool)
    ensures
        r == lex_lt(a@, b@),
{
    let an: usize = a.len();
    let bn: usize = b.len();
    let n: usize = if an < bn { an } else { bn };
    let mut i: usize = 0;
    proof {
        assert(a@.skip(0) =~= a@);
        assert(b@.skip(0) =~= b@);
    }
    while i < n
        invariant
            i <= n,
            n <= a@.len(),
            n <= b@.len(),
            n == if a@.len() < b@.len() { a@.len() } else { b@.len() },
            forall|j: int| 0 <= j < i ==> a@[j] == b@[j],
            lex_lt(a@, b@) == lex_lt(a@.skip(i as int), b@.skip(i as int)),
        decreases n - i,
    {
        let av = a[i];
        let bv = b[i];
        if av < bv {
            assert(lex_lt(a@.skip(i as int), b@.skip(i as int)));
            return true;
        }
        if av > bv {
            assert(!lex_lt(a@.skip(i as int), b@.skip(i as int)));
            return false;
        }
        proof {
            let sa = a@.skip(i as int);
            let sb = b@.skip(i as int);
            lemma_lex_lt_skip_common(sa, sb);
            assert(sa.skip(1) =~= a@.skip(i + 1));
            assert(sb.skip(1) =~= b@.skip(i + 1));
        }
        i += 1;
    }
    // one is a prefix of the other: the shorter comes first
    let r = an < bn;
    proof {
        let sa = a@.skip(n as int);
        let sb = b@.skip(n as int);
        if a@.len() < b@.len() {
            assert(sa.len() == 0);
            assert(sb.len() > 0);
            assert(lex_lt(sa, sb));
        } else {
            assert(sb.len() == 0);
            assert(!lex_lt(sa, sb));
        }
    }
    r
}

/// Exact equality of two nibble paths.
pub fn nibbles_eq(a: &Nibbles, b: &Nibbles) -> (r: bool)
    ensures
        r == (a@ == b@),
{
    bytes_eq(&a.data, &b.data)
}

/// Decides [`lex_lt`] over two nibble paths.
pub fn nibbles_lt(a: &Nibbles, b: &Nibbles) -> (r: bool)
    ensures
        r == lex_lt(a@, b@),
{
    bytes_lt(&a.data, &b.data)
}

} // verus!
