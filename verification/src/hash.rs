//! Digests: SHA-256 over bytes, and the canonical bytes of field elements.

use crate::field::values;
use crate::field::Felt;
use ark_bls12_381::Fr;
use ark_ff::BigInt;
use ark_serialize::CanonicalSerialize;
use digest::Digest;
use sha2::Sha256;
use vstd::prelude::*;

verus! {

/// The SHA-256 digest of a byte string.
pub uninterp spec fn sha256(data: Seq<u8>) -> Seq<u8>;

/// The `n` low bytes of `x`, least significant first.
pub open spec fn le_bytes(x: nat, n: nat) -> Seq<u8>
    decreases n,
{
    if n == 0 {
        Seq::empty()
    } else {
        seq![(x % 256) as u8] + le_bytes(x / 256, (n - 1) as nat)
    }
}

/// The field elements one after the other, each as 32 bytes, least significant first.
pub open spec fn element_bytes(vals: Seq<nat>) -> Seq<u8>
    decreases vals.len(),
{
    if vals.len() == 0 {
        Seq::empty()
    } else {
        element_bytes(vals.drop_last()) + le_bytes(vals.last(), 32)
    }
}

/// The canonical bytes of a tuple of field elements: their number as 8 bytes, least
/// significant first, then the elements.
pub open spec fn canonical_bytes(vals: Seq<nat>) -> Seq<u8> {
    le_bytes(vals.len(), 8) + element_bytes(vals)
}

/// The digest that commits to a tuple of field elements.
pub open spec fn tuple_digest(vals: Seq<nat>) -> Seq<u8> {
    sha256(canonical_bytes(vals))
}

/// The digest of an inner node with the given children.
pub open spec fn node_digest(left: Seq<u8>, right: Seq<u8>) -> Seq<u8> {
    sha256(left + right)
}

/// The byte strings that a sequence of vectors holds.
pub open spec fn byte_strings(s: Seq<Vec<u8>>) -> Seq<Seq<u8>> {
    Seq::new(s.len(), |i: int| s[i]@)
}

/// The SHA-256 digest of `data`, by `Digest::new`, `update` and `finalize` on the
/// `Sha256` of the sha2 crate, whose output has 32 bytes.
#[verifier::external_body]
pub(crate) fn sha256_digest(data: &Vec<u8>) -> (digest: Vec<u8>)
    ensures
        digest@ == sha256(data@),
        digest.len() == 32,
{
    let mut hasher = Sha256::new();
    hasher.update(data);
    hasher.finalize().to_vec()
}

/// The canonical bytes of a tuple, by `CanonicalSerialize::serialize_compressed` of
/// arkworks on a vector of field elements: the length as a `u64` and then each
/// element's canonical number in 32 bytes, all least significant byte first.
#[verifier::external_body]
pub(crate) fn serialize_tuple(tuple: &[Felt]) -> (bytes: Vec<u8>)
    ensures
        bytes@ == canonical_bytes(values(tuple@)),
{
    let elements: Vec<Fr> = tuple.iter().map(|c| Fr::new(BigInt::new([c.l0, c.l1, c.l2, c.l3]))).collect();
    let mut bytes = Vec::new();
    elements.serialize_compressed(&mut bytes).unwrap();
    bytes
}

/// A copy of a byte string.
pub fn copy_bytes(a: &Vec<u8>) -> (r: Vec<u8>)
    ensures
        r@ == a@,
{
    let mut r: Vec<u8> = Vec::new();
    let mut i: usize = 0;
    while i < a.len()
        invariant
            i <= a.len(),
            r@ == a@.take(i as int),
        decreases a.len() - i,
    {
        r.push(a[i]);
        proof {
            assert(a@.take(i + 1) =~= a@.take(i as int).push(a@[i as int]));
        }
        i = i + 1;
    }
    proof {
        assert(a@.take(a.len() as int) =~= a@);
    }
    r
}

/// The bytes of `a` followed by those of `b`.
pub fn concat_bytes(a: &Vec<u8>, b: &Vec<u8>) -> (r: Vec<u8>)
    ensures
        r@ == a@ + b@,
{
    let mut r = copy_bytes(a);
    let mut i: usize = 0;
    while i < b.len()
        invariant
            i <= b.len(),
            r@ == a@ + b@.take(i as int),
        decreases b.len() - i,
    {
        r.push(b[i]);
        proof {
            assert(b@.take(i + 1) =~= b@.take(i as int).push(b@[i as int]));
            assert(a@ + b@.take(i + 1) =~= (a@ + b@.take(i as int)).push(b@[i as int]));
        }
        i = i + 1;
    }
    proof {
        assert(b@.take(b.len() as int) =~= b@);
    }
    r
}

/// Whether two byte strings are the same.
pub fn same_bytes(a: &Vec<u8>, b: &Vec<u8>) -> (r: bool)
    ensures
        r == (a@ == b@),
{
    if a.len() != b.len() {
        return false;
    }
    let mut i: usize = 0;
    while i < a.len()
        invariant
            a.len() == b.len(),
            i <= a.len(),
            a@.take(i as int) == b@.take(i as int),
        decreases a.len() - i,
    {
        if a[i] != b[i] {
            return false;
        }
        proof {
            assert(a@.take(i + 1) =~= a@.take(i as int).push(a@[i as int]));
            assert(b@.take(i + 1) =~= b@.take(i as int).push(b@[i as int]));
        }
        i = i + 1;
    }
    proof {
        assert(a@.take(a.len() as int) =~= a@);
        assert(b@.take(b.len() as int) =~= b@);
    }
    true
}

/// The digest that commits to a tuple of field elements.
pub fn hash_tuple(tuple: &[Felt]) -> (digest: Vec<u8>)
    ensures
        digest@ == tuple_digest(values(tuple@)),
        digest.len() == 32,
{
    let bytes = serialize_tuple(tuple);
    sha256_digest(&bytes)
}

/// The digest of an inner node with the given children.
pub fn hash_nodes(left: &Vec<u8>, right: &Vec<u8>) -> (digest: Vec<u8>)
    ensures
        digest@ == node_digest(left@, right@),
        digest.len() == 32,
{
    let bytes = concat_bytes(left, right);
    sha256_digest(&bytes)
}

} // verus!
