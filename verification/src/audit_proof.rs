//! Audit proofs: the sibling digests from which a verifier rebuilds the root
//! out of a few known leaves.
//!
//! Proof generation and verification are the work of the `rs_merkle` crate.
//! What a proof for several leaves holds and whether a proof verifies are
//! functions of the arguments alone, and are named here without being spelled
//! out. For a single leaf both are stated: the proof holds the audit path of
//! the leaf, and it verifies where folding the leaf along it gives the root.

use crate::error::ProtocolError;
use crate::hasher::{collide, digest_seqs};
use crate::path::sibling_sides;
use crate::recompute::{
    fold_root, lemma_audit_path_length, lemma_audit_path_reaches_root, lemma_fold_is_binding,
};
use crate::tree::{audit_path, merkle_root};
use vstd::prelude::*;

verus! {

/// The error type of `rs_merkle`, carried through without being looked into.
#[verifier::external_type_specification]
#[verifier::external_body]
pub struct ExMerkleError(rs_merkle::Error);

/// The sibling digests that `rs_merkle` puts into the proof for the leaves at
/// `leaf_indices` of the tree over `leaves`.
pub uninterp spec fn spec_proof_hashes(leaves: Seq<Seq<u8>>, leaf_indices: Seq<usize>) -> Seq<
    Seq<u8>,
>;

/// Whether `rs_merkle` accepts `proof_hashes` as a proof that the tree of
/// `total_leaves_count` leaves with root `root` holds `leaf_hashes` at
/// `leaf_indices`.
pub uninterp spec fn spec_proof_verifies(
    proof_hashes: Seq<Seq<u8>>,
    root: Seq<u8>,
    leaf_indices: Seq<usize>,
    leaf_hashes: Seq<Seq<u8>>,
    total_leaves_count: usize,
) -> bool;

/// Whether a proof for the one leaf `index` of `total_leaves_count` leaves
/// verifies. The proof must hold a digest for every sibling that the leaf
/// meets on its way up, and the leaf folded along these digests, each on the
/// side of its sibling, must give the root. Digests behind the needed ones
/// are not looked at.
pub open spec fn leaf_proof_verifies(
    proof_hashes: Seq<Seq<u8>>,
    root: Seq<u8>,
    index: nat,
    leaf_hash: Seq<u8>,
    total_leaves_count: nat,
) -> bool {
    let sides = sibling_sides(total_leaves_count, index);
    sides.len() <= proof_hashes.len() && fold_root(
        leaf_hash,
        proof_hashes.take(sides.len() as int),
        sides,
    ) == root
}

/// The bytes of a proof on the wire: its digests one after the other.
pub open spec fn serialized(proof_hashes: Seq<Seq<u8>>) -> Seq<u8> {
    Seq::new(32 * proof_hashes.len(), |j: int| proof_hashes[j / 32][j % 32])
}

/// The digests that a byte string holds: its successive blocks of 32 bytes.
pub open spec fn chunks(bytes: Seq<u8>) -> Seq<Seq<u8>> {
    Seq::new(bytes.len() / 32, |i: int| bytes.subrange(32 * i, 32 * i + 32))
}

/// Builds the `rs_merkle` tree over `leaves` with `MerkleTree::from_leaves`,
/// asks it for the proof of `leaf_indices` with `MerkleTree::proof`, and copies
/// the proof's digests out. Trusted: the digests depend on the leaves and the
/// indices alone; and for a single index of a leaf they are, level by level
/// from the leaves upward, the sibling of the node on the way to the root,
/// wherever that node has one.
#[verifier::external_body]
pub(crate) fn generate_proof_hashes(leaves: &Vec<[u8; 32]>, leaf_indices: &[usize]) -> (hashes:
    Vec<[u8; 32]>)
    ensures
        digest_seqs(hashes@) == spec_proof_hashes(digest_seqs(leaves@), leaf_indices@),
        leaf_indices@.len() == 1 && leaf_indices@[0] < leaves@.len() ==> digest_seqs(hashes@)
            == audit_path(digest_seqs(leaves@), leaf_indices@[0] as nat),
{
    let tree = rs_merkle::MerkleTree::<rs_merkle::algorithms::Sha256>::from_leaves(leaves);
    tree.proof(leaf_indices).proof_hashes().to_vec()
}

/// Calls `MerkleProof::verify` of `rs_merkle` on a proof made of
/// `proof_hashes`. Trusted: the answer depends on the arguments alone; and
/// for one leaf whose index is below the leaf count, the call takes from the
/// front of the proof one digest for each level on which the node on the way
/// up has a sibling, refuses a proof that holds too few, hashes node and
/// sibling with the one of the lower index first, moves a node without a
/// sibling up unchanged, and compares what it reaches with the root.
#[verifier::external_body]
fn verify_proof_hashes(
    proof_hashes: &Vec<[u8; 32]>,
    root: &[u8; 32],
    leaf_indices: &[usize],
    leaf_hashes: &[[u8; 32]],
    total_leaves_count: usize,
) -> (accepted: bool)
    ensures
        accepted == spec_proof_verifies(
            digest_seqs(proof_hashes@),
            root@,
            leaf_indices@,
            digest_seqs(leaf_hashes@),
            total_leaves_count,
        ),
        leaf_indices@.len() == 1 && leaf_hashes@.len() == 1 && leaf_indices@[0]
            < total_leaves_count ==> accepted == leaf_proof_verifies(
            digest_seqs(proof_hashes@),
            root@,
            leaf_indices@[0] as nat,
            leaf_hashes@[0]@,
            total_leaves_count as nat,
        ),
{
    let proof = rs_merkle::MerkleProof::<rs_merkle::algorithms::Sha256>::new(proof_hashes.clone());
    proof.verify(*root, leaf_indices, leaf_hashes, total_leaves_count)
}

/// Calls `MerkleProof::to_bytes` of `rs_merkle`. Trusted: the bytes are the
/// digests of the proof, one after the other in proof order.
#[verifier::external_body]
fn serialize_proof_hashes(proof_hashes: &Vec<[u8; 32]>) -> (bytes: Vec<u8>)
    ensures
        bytes@ == serialized(digest_seqs(proof_hashes@)),
{
    rs_merkle::MerkleProof::<rs_merkle::algorithms::Sha256>::new(proof_hashes.clone()).to_bytes()
}

/// Calls `MerkleProof::from_bytes` of `rs_merkle`. Trusted: the call fails
/// exactly when the number of bytes is no multiple of 32, and otherwise gives
/// the successive blocks of 32 bytes.
#[verifier::external_body]
fn deserialize_proof_hashes(bytes: &[u8]) -> (parsed: Result<Vec<[u8; 32]>, rs_merkle::Error>)
    ensures
        parsed is Ok <==> bytes@.len() % 32 == 0,
        parsed is Ok ==> digest_seqs(parsed->Ok_0@) == chunks(bytes@),
{
    match rs_merkle::MerkleProof::<rs_merkle::algorithms::Sha256>::from_bytes(bytes) {
        Ok(proof) => Ok(proof.proof_hashes().to_vec()),
        Err(error) => Err(error),
    }
}

/// An audit proof: an ordered list of sibling digests.
pub struct MerkleProof {
    proof_hashes: Vec<[u8; 32]>,
}

impl View for MerkleProof {
    type V = Seq<Seq<u8>>;

    closed spec fn view(&self) -> Seq<Seq<u8>> {
        digest_seqs(self.proof_hashes@)
    }
}

impl MerkleProof {
    /// A proof made of the given digests.
    pub fn new(proof_hashes: Vec<[u8; 32]>) -> (proof: MerkleProof)
        ensures
            proof@ == digest_seqs(proof_hashes@),
    {
        MerkleProof { proof_hashes }
    }

    /// The digests of the proof, in order.
    pub fn proof_hashes(&self) -> (hashes: &[[u8; 32]])
        ensures
            digest_seqs(hashes@) == self@,
    {
        self.proof_hashes.as_slice()
    }

    /// Checks the proof against a claimed root: whether the leaves
    /// `leaf_hashes` at positions `leaf_indices`, together with the digests of
    /// the proof, rebuild `root` in a tree of `total_leaves_count` leaves.
    /// For several leaves the answer is `rs_merkle`'s and is only named; for
    /// one leaf it is stated.
    pub fn verify(
        &self,
        root: [u8; 32],
        leaf_indices: &[usize],
        leaf_hashes: &[[u8; 32]],
        total_leaves_count: usize,
    ) -> (accepted: bool)
        ensures
            accepted == spec_proof_verifies(
                self@,
                root@,
                leaf_indices@,
                digest_seqs(leaf_hashes@),
                total_leaves_count,
            ),
            leaf_indices@.len() == 1 && leaf_hashes@.len() == 1 && leaf_indices@[0]
                < total_leaves_count ==> accepted == leaf_proof_verifies(
                self@,
                root@,
                leaf_indices@[0] as nat,
                leaf_hashes@[0]@,
                total_leaves_count as nat,
            ),
    {
        verify_proof_hashes(
            &self.proof_hashes,
            &root,
            leaf_indices,
            leaf_hashes,
            total_leaves_count,
        )
    }

    /// The proof as bytes for the wire: its digests one after the other.
    /// `from_bytes` reads the same proof back from them.
    pub fn to_bytes(&self) -> (bytes: Vec<u8>)
        ensures
            bytes@ == serialized(self@),
            bytes@.len() == 32 * self@.len(),
            chunks(bytes@) == self@,
    {
        proof {
            lemma_serialized_then_chunks(self@);
        }
        serialize_proof_hashes(&self.proof_hashes)
    }

    /// Reads a proof back from its bytes. Fails with `ParseError` exactly when the
    /// bytes do not divide into digests.
    pub fn from_bytes(bytes: &[u8]) -> (parsed: Result<MerkleProof, ProtocolError>)
        ensures
            parsed is Ok <==> bytes@.len() % 32 == 0,
            parsed is Ok ==> parsed->Ok_0@ == chunks(bytes@),
            parsed is Err ==> parsed->Err_0 == ProtocolError::ParseError,
    {
        match deserialize_proof_hashes(bytes) {
            Ok(proof_hashes) => Ok(MerkleProof { proof_hashes }),
            Err(_) => Err(ProtocolError::ParseError),
        }
    }
}

/// Checks a proof for several leaves against the committed root.
pub fn verify_merkle_proof(
    merkle_proof: MerkleProof,
    merkle_root: [u8; 32],
    indices_to_prove: Vec<usize>,
    leaves_to_prove: &[[u8; 32]],
    leaves_len: usize,
) -> (accepted: bool)
    ensures
        accepted == spec_proof_verifies(
            merkle_proof@,
            merkle_root@,
            indices_to_prove@,
            digest_seqs(leaves_to_prove@),
            leaves_len,
        ),
{
    merkle_proof.verify(merkle_root, indices_to_prove.as_slice(), leaves_to_prove, leaves_len)
}

/// Checks a proof for one leaf against the committed root: whether the leaf,
/// folded along the digests of the proof, gives the root.
pub fn verify_merkle_proof_single_leaf(
    merkle_proof: &MerkleProof,
    merkle_root: &[u8; 32],
    index_to_prove: &usize,
    leaf_to_prove: &[u8; 32],
    leaves_len: usize,
) -> (accepted: bool)
    ensures
        accepted == spec_proof_verifies(
            merkle_proof@,
            merkle_root@,
            seq![*index_to_prove],
            seq![leaf_to_prove@],
            leaves_len,
        ),
        *index_to_prove < leaves_len ==> accepted == leaf_proof_verifies(
            merkle_proof@,
            merkle_root@,
            *index_to_prove as nat,
            leaf_to_prove@,
            leaves_len as nat,
        ),
{
    let mut indices_to_prove: Vec<usize> = Vec::new();
    indices_to_prove.push(*index_to_prove);
    let mut leaves_to_prove: Vec<[u8; 32]> = Vec::new();
    leaves_to_prove.push(*leaf_to_prove);
    proof {
        assert(digest_seqs(leaves_to_prove@) =~= seq![leaf_to_prove@]);
    }
    merkle_proof.verify(
        *merkle_root,
        indices_to_prove.as_slice(),
        leaves_to_prove.as_slice(),
        leaves_len,
    )
}

/// Honest round trip for one leaf: the audit path of a leaf verifies against
/// the root of the tree, with the leaf as it stands in the tree.
pub proof fn lemma_honest_leaf_proof_verifies(leaves: Seq<Seq<u8>>, index: nat)
    requires
        index < leaves.len(),
    ensures
        leaf_proof_verifies(
            audit_path(leaves, index),
            merkle_root(leaves),
            index,
            leaves[index as int],
            leaves.len(),
        ),
{
    lemma_audit_path_length(leaves, index);
    lemma_audit_path_reaches_root(leaves, index);
    let path = audit_path(leaves, index);
    assert(path.take(path.len() as int) =~= path);
}

/// Tamper detection for one leaf. Let a proof verify for a leaf. If another
/// proof for the same place verifies against the same root, with another
/// leaf or with another digest among those that are looked at, and the
/// digests of the two proofs are pairwise equally wide, then two different
/// byte strings have the same digest.
pub proof fn lemma_tampered_leaf_proof(
    proof_hashes: Seq<Seq<u8>>,
    leaf_hash: Seq<u8>,
    other_hashes: Seq<Seq<u8>>,
    other_leaf: Seq<u8>,
    root: Seq<u8>,
    index: nat,
    total_leaves_count: nat,
)
    requires
        leaf_proof_verifies(proof_hashes, root, index, leaf_hash, total_leaves_count),
        leaf_proof_verifies(other_hashes, root, index, other_leaf, total_leaves_count),
        forall|k: int|
            0 <= k < sibling_sides(total_leaves_count, index).len() ==> proof_hashes[k].len()
                == other_hashes[k].len(),
        leaf_hash != other_leaf || exists|k: int|
            0 <= k < sibling_sides(total_leaves_count, index).len() && proof_hashes[k]
                != other_hashes[k],
    ensures
        exists|a: Seq<u8>, b: Seq<u8>| collide(a, b),
{
    let sides = sibling_sides(total_leaves_count, index);
    let needed = proof_hashes.take(sides.len() as int);
    let other_needed = other_hashes.take(sides.len() as int);
    if leaf_hash == other_leaf {
        let k = choose|k: int| 0 <= k < sides.len() && proof_hashes[k] != other_hashes[k];
        assert(needed[k] != other_needed[k]);
    }
    lemma_fold_is_binding(leaf_hash, needed, other_leaf, other_needed, sides);
}

/// The bytes of a proof divide into digests, and reading them back gives the
/// same digests.
pub proof fn lemma_serialized_then_chunks(proof_hashes: Seq<Seq<u8>>)
    requires
        forall|i: int| 0 <= i < proof_hashes.len() ==> (#[trigger] proof_hashes[i]).len() == 32,
    ensures
        serialized(proof_hashes).len() == 32 * proof_hashes.len(),
        serialized(proof_hashes).len() % 32 == 0,
        chunks(serialized(proof_hashes)) == proof_hashes,
{
    let bytes = serialized(proof_hashes);
    assert forall|i: int| 0 <= i < proof_hashes.len() implies #[trigger] chunks(bytes)[i]
        == proof_hashes[i] by {
        let block = bytes.subrange(32 * i, 32 * i + 32);
        assert(forall|j: int| 0 <= j < 32 ==> block[j] == proof_hashes[i][j]);
    }
}

/// Proof round trip: a proof that went through its bytes and back verifies
/// exactly when the proof itself does, whatever it is checked against.
pub proof fn lemma_proof_round_trip(
    proof_hashes: Seq<Seq<u8>>,
    root: Seq<u8>,
    leaf_indices: Seq<usize>,
    leaf_hashes: Seq<Seq<u8>>,
    total_leaves_count: usize,
)
    requires
        forall|i: int| 0 <= i < proof_hashes.len() ==> (#[trigger] proof_hashes[i]).len() == 32,
    ensures
        serialized(proof_hashes).len() % 32 == 0,
        spec_proof_verifies(
            chunks(serialized(proof_hashes)),
            root,
            leaf_indices,
            leaf_hashes,
            total_leaves_count,
        ) == spec_proof_verifies(proof_hashes, root, leaf_indices, leaf_hashes, total_leaves_count),
{
    lemma_serialized_then_chunks(proof_hashes);
}

} // verus!
