//! The commitment: a binary hash tree over an ordered sequence of leaf digests.
//!
//! Adjacent nodes of a level are paired from the left, and each pair becomes
//! the digest of its two members joined. Where a level has an odd number of
//! nodes, the last one has no partner and moves up unchanged. The levels are
//! built until one node is left: the root.
//!
//! The tree is built by the `rs_merkle` crate. What its root is, and which
//! digests its proof for a single leaf holds, is stated here over
//! [`merkle_root`] and [`audit_path`].

use crate::audit_proof::{generate_proof_hashes, spec_proof_hashes, MerkleProof};
use crate::error::ProtocolError;
use crate::hasher::{collide, digest_seqs, lemma_joined_pairs, node_hash, spec_sha256};
use vstd::prelude::*;

verus! {

/// The level above `nodes`: node `k` joins nodes `2k` and `2k + 1`, or is node
/// `2k` itself where that one is the last of an odd level.
pub open spec fn parent_level(nodes: Seq<Seq<u8>>) -> Seq<Seq<u8>> {
    Seq::new(
        ((nodes.len() + 1) / 2) as nat,
        |k: int|
            if 2 * k + 1 < nodes.len() {
                node_hash(nodes[2 * k], nodes[2 * k + 1])
            } else {
                nodes[2 * k]
            },
    )
}

/// The root over a non-empty level of nodes.
pub open spec fn merkle_root(nodes: Seq<Seq<u8>>) -> Seq<u8>
    decreases nodes.len(),
{
    if nodes.len() <= 1 {
        nodes[0]
    } else {
        merkle_root(parent_level(nodes))
    }
}

/// Whether every node of a level is 32 bytes wide.
pub open spec fn digests_wide(nodes: Seq<Seq<u8>>) -> bool {
    forall|i: int| 0 <= i < nodes.len() ==> (#[trigger] nodes[i]).len() == 32
}

/// Whether every digest is 32 bytes wide, whatever is hashed.
pub open spec fn digest_is_wide() -> bool {
    forall|data: Seq<u8>| (#[trigger] spec_sha256(data)).len() == 32
}

/// Two different levels of equally many nodes, all 32 bytes wide, have the
/// same root only where two different byte strings have the same digest.
proof fn lemma_levels_with_one_root(nodes: Seq<Seq<u8>>, other: Seq<Seq<u8>>)
    requires
        nodes.len() == other.len(),
        nodes.len() >= 1,
        digests_wide(nodes),
        digests_wide(other),
        digest_is_wide(),
        nodes != other,
        merkle_root(nodes) == merkle_root(other),
    ensures
        exists|a: Seq<u8>, b: Seq<u8>| collide(a, b),
    decreases nodes.len(),
{
    if nodes.len() == 1 {
        assert(nodes =~= other);
    } else {
        let above = parent_level(nodes);
        let other_above = parent_level(other);
        if above != other_above {
            lemma_levels_with_one_root(above, other_above);
        } else {
            if forall|j: int| 0 <= j < nodes.len() ==> nodes[j] == other[j] {
                assert(nodes =~= other);
            }
            let j = choose|j: int| 0 <= j < nodes.len() && nodes[j] != other[j];
            let k = j / 2;
            assert(above[k] == other_above[k]);
            if 2 * k + 1 < nodes.len() {
                let a = nodes[2 * k] + nodes[2 * k + 1];
                let b = other[2 * k] + other[2 * k + 1];
                if a == b {
                    lemma_joined_pairs(
                        nodes[2 * k],
                        nodes[2 * k + 1],
                        other[2 * k],
                        other[2 * k + 1],
                    );
                }
                assert(collide(a, b));
            }
        }
    }
}

/// The root commits to every leaf and its position. Take two different
/// sequences of equally many leaf digests, each 32 bytes wide. If the two
/// trees have the same root, then two different byte strings have the same
/// digest, or some byte string has a digest that is not 32 bytes wide.
pub proof fn lemma_root_is_binding(leaves: Seq<Seq<u8>>, other: Seq<Seq<u8>>)
    requires
        leaves.len() == other.len(),
        leaves.len() >= 1,
        digests_wide(leaves),
        digests_wide(other),
        leaves != other,
        merkle_root(leaves) == merkle_root(other),
    ensures
        (exists|a: Seq<u8>, b: Seq<u8>| collide(a, b)) || !digest_is_wide(),
{
    if digest_is_wide() {
        lemma_levels_with_one_root(leaves, other);
    }
}

/// The sibling digests of node `index`, from the level `nodes` upward. A level
/// on which the node is the unpaired last one contributes no digest.
pub open spec fn audit_path(nodes: Seq<Seq<u8>>, index: nat) -> Seq<Seq<u8>>
    decreases nodes.len(),
{
    if nodes.len() <= 1 {
        seq![]
    } else {
        let above = audit_path(parent_level(nodes), index / 2);
        if index % 2 == 1 {
            seq![nodes[index - 1]] + above
        } else if index + 1 < nodes.len() {
            seq![nodes[index as int + 1]] + above
        } else {
            above
        }
    }
}

/// Builds the `rs_merkle` tree over `leaves` with `MerkleTree::from_leaves`
/// and asks it for its root with `MerkleTree::root`. Trusted: an empty tree
/// has no root; otherwise the root is what is left when, level by level,
/// neighbours are hashed in pairs from the left and a last node without a
/// partner moves up unchanged.
#[verifier::external_body]
fn root_of_leaves(leaves: &Vec<[u8; 32]>) -> (root: Option<[u8; 32]>)
    ensures
        root is Some <==> leaves@.len() > 0,
        root is Some ==> root->Some_0@ == merkle_root(digest_seqs(leaves@)),
{
    rs_merkle::MerkleTree::<rs_merkle::algorithms::Sha256>::from_leaves(leaves).root()
}

/// Whether some requested index is not the index of a leaf.
pub open spec fn some_index_out_of_range(leaf_indices: Seq<usize>, leaf_count: nat) -> bool {
    exists|k: int| 0 <= k < leaf_indices.len() && leaf_indices[k] >= leaf_count
}

/// A tree over an ordered sequence of leaf digests, with its root.
pub struct MerkleTree {
    leaves: Vec<[u8; 32]>,
    root: Option<[u8; 32]>,
}

impl View for MerkleTree {
    type V = Seq<Seq<u8>>;

    /// The leaf digests, in order.
    closed spec fn view(&self) -> Seq<Seq<u8>> {
        digest_seqs(self.leaves@)
    }
}

impl MerkleTree {
    #[verifier::type_invariant]
    spec fn root_is_of_leaves(self) -> bool {
        &&& self.root is Some <==> self.leaves@.len() > 0
        &&& self.root is Some ==> self.root->Some_0@ == merkle_root(digest_seqs(self.leaves@))
    }

    /// Builds the tree over a copy of `leaves`.
    pub fn from_leaves(leaves: &[[u8; 32]]) -> (tree: MerkleTree)
        ensures
            tree@ == digest_seqs(leaves@),
    {
        let mut copy: Vec<[u8; 32]> = Vec::new();
        let mut i: usize = 0;
        while i < leaves.len()
            invariant
                i <= leaves@.len(),
                copy@ == leaves@.take(i as int),
            decreases leaves@.len() - i,
        {
            copy.push(leaves[i]);
            i = i + 1;
        }
        let root = root_of_leaves(&copy);
        MerkleTree { leaves: copy, root }
    }

    /// The root: the one digest that commits to every leaf and its position.
    /// An empty tree has none.
    pub fn root(&self) -> (root: Option<[u8; 32]>)
        ensures
            root is Some <==> self@.len() > 0,
            root is Some ==> root->Some_0@ == merkle_root(self@),
    {
        proof {
            use_type_invariant(self);
        }
        self.root
    }

    /// Number of leaves.
    pub fn leaves_len(&self) -> (count: usize)
        ensures
            count == self@.len(),
    {
        self.leaves.len()
    }

    /// The leaf digests, in order.
    pub fn leaves(&self) -> (leaves: &[[u8; 32]])
        ensures
            digest_seqs(leaves@) == self@,
    {
        self.leaves.as_slice()
    }

    /// The tree in which leaf `index` holds `new_leaf` and every other leaf
    /// is as it was. Fails with `IndexOutOfRange` exactly when `index` is not
    /// below the leaf count.
    pub fn replace_leaf(&self, index: usize, new_leaf: [u8; 32]) -> (replaced: Result<
        MerkleTree,
        ProtocolError,
    >)
        ensures
            replaced is Ok <==> index < self@.len(),
            replaced is Ok ==> replaced->Ok_0@ == self@.update(index as int, new_leaf@),
            replaced is Err ==> replaced->Err_0 == ProtocolError::IndexOutOfRange,
    {
        if index >= self.leaves.len() {
            return Err(ProtocolError::IndexOutOfRange);
        }
        let mut leaves: Vec<[u8; 32]> = Vec::new();
        let mut i: usize = 0;
        while i < self.leaves.len()
            invariant
                i <= self.leaves@.len(),
                index < self.leaves@.len(),
                leaves@ == self.leaves@.update(index as int, new_leaf).take(i as int),
            decreases self.leaves@.len() - i,
        {
            if i == index {
                leaves.push(new_leaf);
            } else {
                leaves.push(self.leaves[i]);
            }
            i = i + 1;
        }
        let root = root_of_leaves(&leaves);
        Ok(MerkleTree { leaves, root })
    }

    /// The audit proof for the leaves at `leaf_indices`. Fails with
    /// `IndexOutOfRange` exactly when one of the indices is not below the
    /// leaf count.
    pub fn prove(&self, leaf_indices: &[usize]) -> (generated: Result<MerkleProof, ProtocolError>)
        ensures
            generated is Err <==> some_index_out_of_range(leaf_indices@, self@.len()),
            generated is Err ==> generated->Err_0 == ProtocolError::IndexOutOfRange,
            generated is Ok ==> generated->Ok_0@ == spec_proof_hashes(self@, leaf_indices@),
            generated is Ok && leaf_indices@.len() == 1 ==> generated->Ok_0@ == audit_path(
                self@,
                leaf_indices@[0] as nat,
            ),
    {
        let count = self.leaves.len();
        let mut k: usize = 0;
        while k < leaf_indices.len()
            invariant
                k <= leaf_indices@.len(),
                count == self@.len(),
                forall|j: int| 0 <= j < k ==> leaf_indices@[j] < count,
            decreases leaf_indices@.len() - k,
        {
            if leaf_indices[k] >= count {
                return Err(ProtocolError::IndexOutOfRange);
            }
            k = k + 1;
        }
        Ok(MerkleProof::new(generate_proof_hashes(&self.leaves, leaf_indices)))
    }
}

/// Builds the tree over the given leaf digests.
pub fn compute_merkle_tree(hashed_leaves: &Vec<[u8; 32]>) -> (tree: MerkleTree)
    ensures
        tree@ == digest_seqs(hashed_leaves@),
{
    MerkleTree::from_leaves(hashed_leaves.as_slice())
}

} // verus!
