//! Keccak-256 hashing and the unpacking of 32-byte hashes into 64-nibble
//! trie paths.

use vstd::prelude::*;
use crate::nibbles::Nibbles;
use crate::node::B256;

verus! {

/// What Keccak-256 returns on the given bytes.
pub uninterp spec fn keccak_of(data: Seq<u8>) -> Seq<u8>;

/// Relies on tiny_keccak's Keccak-256: the digest is a function of the input
/// bytes alone and is always 32 bytes long.
#[verifier::external_body]
pub(crate) fn keccak256(data: &Vec<u8>) -> (r: B256)
    ensures
        r@ == keccak_of(data@),
        r@.len() == 32,
        r.wf(),
{
    let mut hasher = tiny_keccak::Keccak::v256();
    let mut out = [0u8; 32];
    tiny_keccak::Hasher::update(&mut hasher, data.as_slice());
    tiny_keccak::Hasher::finalize(hasher, &mut out);
    B256 { bytes: out.to_vec() }
}

/// The nibble sequence of a byte sequence: each byte becomes its high
/// nibble, then its low nibble.
pub open spec fn unpack_spec(bytes: Seq<u8>) -> Seq<u8> {
    Seq::new(bytes.len() * 2, |i: int| if i % 2 == 0 {
        bytes[i / 2] / 16
    } else {
        bytes[i / 2] % 16
    })
}

/// Unpacking is injective: byte sequences with the same nibble sequence are
/// equal.
pub proof fn lemma_unpack_injective(a: Seq<u8>, b: Seq<u8>)
    requires
        unpack_spec(a) == unpack_spec(b),
    ensures
        a == b,
{
    assert(unpack_spec(a).len() == a.len() * 2);
    assert(unpack_spec(b).len() == b.len() * 2);
    assert(a.len() == b.len());
    assert forall|i: int| 0 <= i < a.len() implies a[i] == b[i] by {
        assert(unpack_spec(a)[2 * i] == a[i] / 16);
        assert(unpack_spec(a)[2 * i + 1] == a[i] % 16);
        assert(unpack_spec(b)[2 * i] == b[i] / 16);
        assert(unpack_spec(b)[2 * i + 1] == b[i] % 16);
        assert(a[i] == 16 * (a[i] / 16) + a[i] % 16);
        assert(b[i] == 16 * (b[i] / 16) + b[i] % 16);
    }
    assert(a =~= b);
}

/// Unpack a hash into its nibble path: 64 nibbles for a 32-byte hash.
pub fn unpack_key(key: &B256) -> (r: Nibbles)
    ensures
        r@ == unpack_spec(key@),
        r@.len() == key@.len() * 2,
        r.wf(),
{
    let mut data: Vec<u8> = Vec::new();
    let n = key.bytes.len();
    let mut i: usize = 0;
    while i < n
        invariant
            i <= n,
            n == key@.len(),
            data@.len() == 2 * i,
            forall|j: int| 0 <= j < 2 * i ==> data@[j] == unpack_spec(key@)[j],
        decreases n - i,
    {
        let b = key.bytes[i];
        data.push(b / 16);
        data.push(b % 16);
        i += 1;
    }
    proof {
        assert(data@ =~= unpack_spec(key@));
        assert forall|j: int| 0 <= j < data@.len() implies data@[j] < 16 by {
            assert(data@[j] == unpack_spec(key@)[j]);
        }
    }
    Nibbles::from_vec(data)
}

} // verus!
