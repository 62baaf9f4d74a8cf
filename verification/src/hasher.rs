//! The digest function on which every commitment rests.

use sha2::Digest;
use vstd::prelude::*;
use vstd::utf8::encode_utf8;

verus! {

/// The SHA-256 digest of a byte string, as the `sha2` crate computes it.
///
/// The function is left uninterpreted: the library relies only on the digest
/// being a function of the input bytes, never on its value.
pub uninterp spec fn spec_sha256(data: Seq<u8>) -> Seq<u8>;

/// Calls `sha2::Sha256::digest` on `data` and copies the 32 output bytes into
/// an array. Trusted: the result is the SHA-256 digest of exactly the bytes of
/// `data`, so equal inputs give equal digests.
#[verifier::external_body]
fn sha256_digest(data: &[u8]) -> (digest: [u8; 32])
    ensures
        digest@ == spec_sha256(data@),
{
    sha2::Sha256::digest(data).into()
}

/// The digest of an inner node: the digest of the left child's digest followed
/// by the right child's.
pub open spec fn node_hash(left: Seq<u8>, right: Seq<u8>) -> Seq<u8> {
    spec_sha256(left + right)
}

/// The digest of an item: the digest of its UTF-8 bytes.
pub open spec fn item_digest(item: Seq<char>) -> Seq<u8> {
    spec_sha256(encode_utf8(item))
}

/// A sequence of digests, each taken as its sequence of bytes.
pub open spec fn digest_seqs(digests: Seq<[u8; 32]>) -> Seq<Seq<u8>> {
    Seq::new(digests.len(), |i: int| digests[i]@)
}

/// Whether two different byte strings have the same digest.
pub open spec fn collide(a: Seq<u8>, b: Seq<u8>) -> bool {
    a != b && spec_sha256(a) == spec_sha256(b)
}

/// Two joined pairs are equal only where their members are, if the second
/// members are equally long.
pub(crate) proof fn lemma_joined_pairs(a: Seq<u8>, b: Seq<u8>, c: Seq<u8>, d: Seq<u8>)
    requires
        a + b == c + d,
        b.len() == d.len(),
    ensures
        a == c,
        b == d,
{
    assert(a =~= (a + b).subrange(0, a.len() as int));
    assert(b =~= (a + b).subrange(a.len() as int, (a + b).len() as int));
}

/// The hashing algorithm of the protocol.
#[derive(Debug, Clone, PartialEq, Eq, Hash)]
pub struct Sha256Algorithm {}

impl Sha256Algorithm {
    /// Digest of `data`.
    pub fn hash(data: &[u8]) -> (digest: [u8; 32])
        ensures
            digest@ == spec_sha256(data@),
    {
        sha256_digest(data)
    }
}

/// Digest of `left` followed by `right`.
pub fn hash_pair(left: &[u8; 32], right: &[u8; 32]) -> (digest: [u8; 32])
    ensures
        digest@ == node_hash(left@, right@),
{
    let mut joined: Vec<u8> = Vec::new();
    let mut i: usize = 0;
    while i < 32
        invariant
            i <= 32,
            joined@ == left@.take(i as int),
        decreases 32 - i,
    {
        joined.push(left[i]);
        i = i + 1;
    }
    let mut j: usize = 0;
    while j < 32
        invariant
            j <= 32,
            joined@ == left@ + right@.take(j as int),
        decreases 32 - j,
    {
        joined.push(right[j]);
        j = j + 1;
    }
    assert(joined@ == left@ + right@);
    Sha256Algorithm::hash(joined.as_slice())
}

/// Whether two digests are the same, byte for byte.
pub fn digests_equal(a: &[u8; 32], b: &[u8; 32]) -> (same: bool)
    ensures
        same == (a@ == b@),
{
    let mut i: usize = 0;
    while i < 32
        invariant
            i <= 32,
            forall|k: int| 0 <= k < i ==> a@[k] == b@[k],
        decreases 32 - i,
    {
        if a[i] != b[i] {
            return false;
        }
        i = i + 1;
    }
    assert(a@ =~= b@);
    true
}

} // verus!
