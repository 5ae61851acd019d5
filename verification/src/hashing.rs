//! The pluggable hash providers, and the one way internal nodes are formed.
//!
//! The two algorithms are outside collaborators; the library names their
//! results and builds every contract on those names.

use vstd::prelude::*;

use crate::digest::{lemma_digest_len, Digest};

verus! {

broadcast use lemma_digest_len;

/// The hash algorithm an accumulator is constructed with, fixed for its
/// whole lifetime.
#[derive(Clone, Copy, Debug, PartialEq, Eq, Structural)]
pub enum HashType {
    Keccak256,
    Blake3,
}

/// The Keccak-256 digest of a byte sequence, as the outside implementation
/// computes it: a pure function of the bytes alone.
pub uninterp spec fn keccak256_of(data: Seq<u8>) -> Seq<u8>;

/// The BLAKE3 digest of a byte sequence, as the outside implementation
/// computes it: a pure function of the bytes alone.
pub uninterp spec fn blake3_of(data: Seq<u8>) -> Seq<u8>;

/// Relies on alloy::primitives::keccak256: the Keccak-256 digest of the
/// input bytes, 32 bytes long, depending on the input bytes alone.
#[verifier::external_body]
fn keccak256_bytes(data: &[u8]) -> (r: [u8; 32])
    ensures
        r@ == keccak256_of(data@),
        r@.len() == 32,
{
    alloy::primitives::keccak256(data).0
}

/// Relies on blake3::hash: the BLAKE3 digest of the input bytes, 32 bytes
/// long, depending on the input bytes alone.
#[verifier::external_body]
fn blake3_bytes(data: &[u8]) -> (r: [u8; 32])
    ensures
        r@ == blake3_of(data@),
        r@.len() == 32,
{
    *blake3::hash(data).as_bytes()
}

/// The digest of a byte sequence under the selected algorithm.
pub open spec fn hash_of(alg: HashType, data: Seq<u8>) -> Seq<u8> {
    match alg {
        HashType::Keccak256 => keccak256_of(data),
        HashType::Blake3 => blake3_of(data),
    }
}

/// The digest of an internal node formed from two children: the left child's
/// bytes, then the right child's, hashed as one 64-byte input. The order is
/// significant and is preserved exactly by every caller.
pub open spec fn combine(alg: HashType, left: Seq<u8>, right: Seq<u8>) -> Seq<u8> {
    hash_of(alg, left + right)
}

/// Applies the selected algorithm to an arbitrary-length byte slice.
pub fn digest_bytes(alg: HashType, data: &[u8]) -> (d: Digest)
    ensures
        d@ == hash_of(alg, data@),
        d@.len() == 32,
{
    match alg {
        HashType::Keccak256 => Digest::from_bytes(keccak256_bytes(data)),
        HashType::Blake3 => Digest::from_bytes(blake3_bytes(data)),
    }
}

/// Concatenates two digests (left first) and digests the 64-byte buffer:
/// the sole way internal nodes are formed.
pub fn combine_digests(alg: HashType, left: &Digest, right: &Digest) -> (d: Digest)
    ensures
        d@ == combine(alg, left@, right@),
        d@.len() == 32,
{
    let mut buffer: Vec<u8> = Vec::new();
    let left_bytes = left.as_bytes();
    let right_bytes = right.as_bytes();
    let mut i: usize = 0;
    while i < 32
        invariant
            i <= 32,
            left_bytes@ == left@,
            buffer@ == left@.take(i as int),
        decreases 32 - i,
    {
        buffer.push(left_bytes[i]);
        i += 1;
    }
    let mut j: usize = 0;
    while j < 32
        invariant
            j <= 32,
            left_bytes@ == left@,
            right_bytes@ == right@,
            buffer@ == left@ + right@.take(j as int),
        decreases 32 - j,
    {
        buffer.push(right_bytes[j]);
        j += 1;
    }
    proof {
        assert(buffer@ =~= left@ + right@);
    }
    digest_bytes(alg, buffer.as_slice())
}

} // verus!
