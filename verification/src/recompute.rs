//! Recomputing a root from one leaf, the sibling digests of an earlier proof
//! and a path: the client's own check of an update.

use crate::error::ProtocolError;
use crate::hasher::{
    collide, digest_seqs, digests_equal, hash_pair, item_digest, lemma_joined_pairs, node_hash,
    Sha256Algorithm,
};
use crate::path::{ceil_log2, path_finder, path_spec, sibling_sides, Direction};
use crate::tree::{audit_path, merkle_root, parent_level};
use vstd::prelude::*;

verus! {

/// One combination of the working digest with a sibling. `Right` says that the
/// sibling sits to the right of the working digest, `Left` that it sits to the
/// left.
pub open spec fn fold_step(working: Seq<u8>, sibling: Seq<u8>, direction: Direction) -> Seq<u8> {
    match direction {
        Direction::Right => node_hash(working, sibling),
        Direction::Left => node_hash(sibling, working),
    }
}

/// The digest reached from `working` by combining it with each sibling in
/// order, the `k`-th sibling by the `k`-th direction of `path`.
pub open spec fn fold_root(working: Seq<u8>, siblings: Seq<Seq<u8>>, path: Seq<Direction>) -> Seq<
    u8,
>
    decreases siblings.len(),
{
    if siblings.len() == 0 {
        working
    } else {
        fold_root(
            fold_step(working, siblings[0], path[0]),
            siblings.drop_first(),
            path.drop_first(),
        )
    }
}

/// Computes the root that follows from a new value for one leaf.
///
/// The working digest starts as the digest of `new_leaf_data`. Each sibling
/// digest of `proof_hashes` is then combined with it, in order: where the
/// path says `Right` the working digest comes first, otherwise the sibling.
/// Fails with `ProofVerificationFailure` exactly when the path has fewer
/// directions than the proof has digests.
pub fn compute_my_own_root(
    new_leaf_data: &String,
    proof_hashes: &[[u8; 32]],
    path: Vec<Direction>,
) -> (computed: Result<[u8; 32], ProtocolError>)
    ensures
        computed is Ok <==> proof_hashes@.len() <= path@.len(),
        computed is Ok ==> computed->Ok_0@ == fold_root(
            item_digest(new_leaf_data@),
            digest_seqs(proof_hashes@),
            path@,
        ),
        computed is Err ==> computed->Err_0 == ProtocolError::ProofVerificationFailure,
{
    let count = proof_hashes.len();
    if path.len() < count {
        return Err(ProtocolError::ProofVerificationFailure);
    }
    let mut working: [u8; 32] = Sha256Algorithm::hash(new_leaf_data.as_str().as_bytes());
    let mut index: usize = 0;
    proof {
        assert(digest_seqs(proof_hashes@).skip(0) =~= digest_seqs(proof_hashes@));
        assert(path@.skip(0) =~= path@);
    }
    while index < count
        invariant
            count == proof_hashes@.len(),
            count <= path@.len(),
            index <= count,
            fold_root(
                working@,
                digest_seqs(proof_hashes@).skip(index as int),
                path@.skip(index as int),
            ) == fold_root(item_digest(new_leaf_data@), digest_seqs(proof_hashes@), path@),
        decreases count - index,
    {
        proof {
            let rest = digest_seqs(proof_hashes@).skip(index as int);
            assert(rest.drop_first() =~= digest_seqs(proof_hashes@).skip(index + 1));
            assert(path@.skip(index as int).drop_first() =~= path@.skip(index + 1));
        }
        let sibling = &proof_hashes[index];
        working =
        match path[index] {
            Direction::Right => hash_pair(&working, sibling),
            Direction::Left => hash_pair(sibling, &working),
        };
        index = index + 1;
    }
    Ok(working)
}

/// The root that follows from a new value for leaf `leaf_num` of
/// `num_leaves`, folded along the path of that leaf. Fails with
/// `ProofVerificationFailure` exactly when the proof holds more digests than
/// the tree is high.
pub fn root_after_update(
    new_leaf_data: &String,
    proof_hashes: &[[u8; 32]],
    num_leaves: usize,
    leaf_num: usize,
) -> (computed: Result<[u8; 32], ProtocolError>)
    ensures
        computed is Ok <==> proof_hashes@.len() <= ceil_log2(num_leaves as nat),
        computed is Ok ==> computed->Ok_0@ == fold_root(
            item_digest(new_leaf_data@),
            digest_seqs(proof_hashes@),
            path_spec(num_leaves as nat, leaf_num as nat),
        ),
        computed is Err ==> computed->Err_0 == ProtocolError::ProofVerificationFailure,
{
    compute_my_own_root(new_leaf_data, proof_hashes, path_finder(num_leaves, leaf_num))
}

/// Whether the root that the server declared is the root the client computed.
pub fn compare_roots(merkle_root: &[u8; 32], my_own_root: &[u8; 32]) -> (same: bool)
    ensures
        same == (merkle_root@ == my_own_root@),
{
    digests_equal(merkle_root, my_own_root)
}

/// An audit path holds one digest for each side, and never more digests than
/// the tree is high.
pub proof fn lemma_audit_path_length(nodes: Seq<Seq<u8>>, index: nat)
    ensures
        audit_path(nodes, index).len() == sibling_sides(nodes.len(), index).len(),
        audit_path(nodes, index).len() <= ceil_log2(nodes.len()),
    decreases nodes.len(),
{
    if nodes.len() > 1 {
        lemma_audit_path_length(parent_level(nodes), index / 2);
    }
}

/// Only the directions that have a sibling are read.
pub proof fn lemma_fold_reads_prefix(
    working: Seq<u8>,
    siblings: Seq<Seq<u8>>,
    path: Seq<Direction>,
    other: Seq<Direction>,
)
    requires
        siblings.len() <= path.len(),
        siblings.len() <= other.len(),
        forall|k: int| 0 <= k < siblings.len() ==> path[k] == other[k],
    ensures
        fold_root(working, siblings, path) == fold_root(working, siblings, other),
    decreases siblings.len(),
{
    if siblings.len() > 0 {
        lemma_fold_reads_prefix(
            fold_step(working, siblings[0], path[0]),
            siblings.drop_first(),
            path.drop_first(),
            other.drop_first(),
        );
    }
}

/// Replacing one node changes one node of the level above.
proof fn lemma_parent_of_update(nodes: Seq<Seq<u8>>, index: nat, working: Seq<u8>)
    requires
        index < nodes.len(),
        nodes.len() > 1,
    ensures
        parent_level(nodes.update(index as int, working)) == parent_level(nodes).update(
            index as int / 2,
            if index % 2 == 1 {
                node_hash(nodes[index - 1], working)
            } else if index + 1 < nodes.len() {
                node_hash(working, nodes[index as int + 1])
            } else {
                working
            },
        ),
{
}

/// Folding a digest along the audit path of a node, each sibling on its own
/// side, gives the root of the tree in which that node holds the digest.
pub proof fn lemma_fold_along_audit_path(nodes: Seq<Seq<u8>>, index: nat, working: Seq<u8>)
    requires
        index < nodes.len(),
    ensures
        fold_root(working, audit_path(nodes, index), sibling_sides(nodes.len(), index))
            == merkle_root(nodes.update(index as int, working)),
    decreases nodes.len(),
{
    if nodes.len() > 1 {
        let above = parent_level(nodes);
        let lifted = if index % 2 == 1 {
            node_hash(nodes[index - 1], working)
        } else if index + 1 < nodes.len() {
            node_hash(working, nodes[index as int + 1])
        } else {
            working
        };
        lemma_parent_of_update(nodes, index, working);
        lemma_fold_along_audit_path(above, index / 2, lifted);
        let rest = audit_path(above, index / 2);
        let rest_sides = sibling_sides(above.len(), index / 2);
        if index % 2 == 1 {
            assert((seq![nodes[index - 1]] + rest).drop_first() =~= rest);
            assert((seq![Direction::Left] + rest_sides).drop_first() =~= rest_sides);
        } else if index + 1 < nodes.len() {
            assert((seq![nodes[index as int + 1]] + rest).drop_first() =~= rest);
            assert((seq![Direction::Right] + rest_sides).drop_first() =~= rest_sides);
        }
    }
}

/// Folding a leaf along its own audit path, each sibling on its own side,
/// gives the root of the tree.
pub proof fn lemma_audit_path_reaches_root(leaves: Seq<Seq<u8>>, index: nat)
    requires
        index < leaves.len(),
    ensures
        fold_root(
            leaves[index as int],
            audit_path(leaves, index),
            sibling_sides(leaves.len(), index),
        ) == merkle_root(leaves),
{
    lemma_fold_along_audit_path(leaves, index, leaves[index as int]);
    assert(leaves.update(index as int, leaves[index as int]) =~= leaves);
}

/// Update authentication. Take a tree over `leaves`, the audit path of leaf
/// `index` in it, and a new digest for that leaf. Folding the new digest
/// along the audit path by the path of the leaf gives the root of the tree
/// after the update. A declared root is therefore equal to the folded digest
/// exactly when it is that root.
pub proof fn lemma_update_authentication(
    leaves: Seq<Seq<u8>>,
    index: nat,
    new_digest: Seq<u8>,
    declared_root: Seq<u8>,
)
    requires
        index < leaves.len(),
    ensures
        audit_path(leaves, index).len() <= ceil_log2(leaves.len()),
        path_spec(leaves.len(), index).len() == ceil_log2(leaves.len()),
        fold_root(new_digest, audit_path(leaves, index), path_spec(leaves.len(), index))
            == merkle_root(leaves.update(index as int, new_digest)),
        (declared_root == fold_root(
            new_digest,
            audit_path(leaves, index),
            path_spec(leaves.len(), index),
        )) == (declared_root == merkle_root(leaves.update(index as int, new_digest))),
{
    lemma_audit_path_length(leaves, index);
    lemma_fold_along_audit_path(leaves, index, new_digest);
    lemma_fold_reads_prefix(
        new_digest,
        audit_path(leaves, index),
        path_spec(leaves.len(), index),
        sibling_sides(leaves.len(), index),
    );
}

/// Tamper detection for the fold. Take two folds along the same path, over
/// equally many siblings that are pairwise equally wide. If the two start
/// from different digests or pass a different sibling somewhere, and still end
/// in the same digest, then two different byte strings have the same digest.
pub proof fn lemma_fold_is_binding(
    working: Seq<u8>,
    siblings: Seq<Seq<u8>>,
    other_working: Seq<u8>,
    other_siblings: Seq<Seq<u8>>,
    path: Seq<Direction>,
)
    requires
        siblings.len() == other_siblings.len(),
        siblings.len() <= path.len(),
        forall|k: int| 0 <= k < siblings.len() ==> siblings[k].len() == other_siblings[k].len(),
        working != other_working || siblings != other_siblings,
        fold_root(working, siblings, path) == fold_root(other_working, other_siblings, path),
    ensures
        exists|a: Seq<u8>, b: Seq<u8>| collide(a, b),
    decreases siblings.len(),
{
    if siblings.len() == 0 {
        assert(siblings =~= other_siblings);
    } else {
        let lifted = fold_step(working, siblings[0], path[0]);
        let other_lifted = fold_step(other_working, other_siblings[0], path[0]);
        let rest = siblings.drop_first();
        let other_rest = other_siblings.drop_first();
        if lifted != other_lifted || rest != other_rest {
            lemma_fold_is_binding(lifted, rest, other_lifted, other_rest, path.drop_first());
        } else {
            let (a, b) = match path[0] {
                Direction::Right => (working + siblings[0], other_working + other_siblings[0]),
                Direction::Left => (siblings[0] + working, other_siblings[0] + other_working),
            };
            if a == b {
                match path[0] {
                    Direction::Right => {
                        lemma_joined_pairs(
                            working,
                            siblings[0],
                            other_working,
                            other_siblings[0],
                        );
                    },
                    Direction::Left => {
                        assert(a.len() == b.len());
                        lemma_joined_pairs(
                            siblings[0],
                            working,
                            other_siblings[0],
                            other_working,
                        );
                    },
                }
                assert(siblings =~= seq![siblings[0]] + rest);
                assert(other_siblings =~= seq![other_siblings[0]] + other_rest);
            }
            assert(collide(a, b));
        }
    }
}

} // verus!
