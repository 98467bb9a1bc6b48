//! The digests of leaves and inner nodes, all made with SHA3-256.

use crypto::digest::Digest;
use crypto::sha3::Sha3;
use vstd::prelude::*;

verus! {

/// The first byte of what is hashed for a leaf.
pub const LEAF_TAG: u8 = 0;

/// The SHA3-256 digest of a byte string, as a sequence of bytes.
pub uninterp spec fn sha3_256_digest(data: Seq<u8>) -> Seq<u8>;

/// Calls `crypto::sha3::Sha3::sha3_256`, feeds `data` to `Digest::input` and
/// reads 32 bytes with `Digest::result`. The contract names the bytes read:
/// they depend on `data` alone.
#[verifier::external_body]
pub(crate) fn sha3_256(data: &[u8]) -> (out: [u8; 32])
    ensures
        out@ == sha3_256_digest(data@),
{
    let mut hasher = Sha3::sha3_256();
    hasher.input(data);
    let mut out = [0u8; 32];
    hasher.result(&mut out);
    out
}

/// The 32 bytes that hold the given sequence.
pub closed spec fn hash_of_bytes(bytes: Seq<u8>) -> [u8; 32] {
    choose|h: [u8; 32]| h@ == bytes
}

/// The sequence of a digest's bytes gives the digest back.
pub proof fn lemma_hash_of_bytes(h: [u8; 32])
    ensures
        hash_of_bytes(h@) == h,
{
    let g = hash_of_bytes(h@);
    assert(g@ == h@);
    assert(g =~= h);
}

/// The SHA3-256 digest of a byte string.
pub open spec fn digest_of(data: Seq<u8>) -> [u8; 32] {
    hash_of_bytes(sha3_256_digest(data))
}

/// The digest that stands for an empty subtree: 32 zero bytes.
pub open spec fn sentinel_digest() -> [u8; 32] {
    vstd::array::spec_array_fill_for_copy_type::<u8, 32>(0u8)
}

/// The digest of an inner node: that of the digests of its two subtrees,
/// the left one first.
pub open spec fn inner_digest(left: [u8; 32], right: [u8; 32]) -> [u8; 32] {
    digest_of(left@ + right@)
}

/// The digest of a leaf: that of the tag byte, the digest of the key's
/// bytes and the digest of the value's bytes. What is hashed for a leaf is
/// one byte longer than what is hashed for an inner node.
pub open spec fn leaf_digest(key: Seq<u8>, value: Seq<u8>) -> [u8; 32] {
    digest_of(seq![LEAF_TAG] + digest_of(key)@ + digest_of(value)@)
}

/// The SHA3-256 digest of `data`.
pub fn digest(data: &[u8]) -> (out: [u8; 32])
    ensures
        out == digest_of(data@),
{
    let out = sha3_256(data);
    proof {
        lemma_hash_of_bytes(out);
    }
    out
}

/// The digest that stands for an empty subtree.
pub fn sentinel() -> (out: [u8; 32])
    ensures
        out == sentinel_digest(),
{
    [0u8; 32]
}

/// Combines the digests of two subtrees into that of their parent.
pub fn hash_inner(left: &[u8; 32], right: &[u8; 32]) -> (out: [u8; 32])
    ensures
        out == inner_digest(*left, *right),
{
    let mut data: Vec<u8> = Vec::new();
    data.extend_from_slice(left.as_slice());
    data.extend_from_slice(right.as_slice());
    assert(data@ =~= left@ + right@);
    digest(data.as_slice())
}

/// The digest of a leaf with the given bytes for its key and its value.
pub fn hash_leaf(key: &[u8], value: &[u8]) -> (out: [u8; 32])
    ensures
        out == leaf_digest(key@, value@),
{
    let key_digest = digest(key);
    let value_digest = digest(value);
    let mut data: Vec<u8> = Vec::new();
    data.push(LEAF_TAG);
    data.extend_from_slice(key_digest.as_slice());
    data.extend_from_slice(value_digest.as_slice());
    assert(data@ =~= seq![LEAF_TAG] + key_digest@ + value_digest@);
    digest(data.as_slice())
}

} // verus!
