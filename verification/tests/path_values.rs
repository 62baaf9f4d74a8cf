use merkle_audit::hasher::{hash_pair, Sha256Algorithm};
use merkle_audit::path::Direction::{Left, Right};
use merkle_audit::path::{path_finder, tree_height, Direction};
use merkle_audit::recompute::{compare_roots, compute_my_own_root, root_after_update};
use merkle_audit::error::ProtocolError;
use merkle_audit::tree::compute_merkle_tree;

fn numbered_leaves(count: usize) -> Vec<[u8; 32]> {
    (0..count)
        .map(|i| Sha256Algorithm::hash(format!("item{}", i).as_bytes()))
        .collect()
}

#[test]
fn tree_height_is_the_ceiling_of_the_logarithm() {
    let expected = [0usize, 0, 1, 2, 2, 3, 3, 3, 3, 4, 4, 4, 4, 4, 4, 4, 4, 5];
    for (count, height) in expected.iter().enumerate() {
        assert_eq!(tree_height(count), *height, "{} leaves", count);
    }
    assert_eq!(tree_height(1 << 20), 20);
    assert_eq!(tree_height((1 << 20) + 1), 21);
    assert_eq!(tree_height(usize::MAX), usize::BITS as usize);
}

#[test]
fn path_length_is_the_ceiling_of_the_logarithm() {
    for count in 2..=130usize {
        let expected = (count as f64).log2().ceil() as usize;
        for index in 0..count {
            assert_eq!(path_finder(count, index).len(), expected);
        }
    }
}

#[test]
fn path_of_a_single_leaf_is_empty() {
    assert!(path_finder(1, 0).is_empty());
    assert!(path_finder(0, 0).is_empty());
}

#[test]
fn path_of_each_leaf_of_four() {
    assert_eq!(path_finder(4, 0), vec![Right, Right]);
    assert_eq!(path_finder(4, 1), vec![Left, Right]);
    assert_eq!(path_finder(4, 2), vec![Right, Left]);
    assert_eq!(path_finder(4, 3), vec![Left, Left]);
}

#[test]
fn path_of_each_leaf_of_two() {
    assert_eq!(path_finder(2, 0), vec![Right]);
    assert_eq!(path_finder(2, 1), vec![Left]);
}

#[test]
fn path_in_a_complete_tree_is_the_parity_of_each_level() {
    for depth in 1..=6u32 {
        let count = 1usize << depth;
        for index in 0..count {
            let path = path_finder(count, index);
            for level in 0..depth as usize {
                let expected = if (index >> level) % 2 == 0 { Right } else { Left };
                assert_eq!(path[level], expected);
            }
        }
    }
}

#[test]
fn sibling_leaves_start_on_opposite_sides() {
    for count in 2..=40usize {
        for index in (0..count - 1).step_by(2) {
            assert_ne!(path_finder(count, index)[0], path_finder(count, index + 1)[0]);
        }
    }
}

#[test]
fn path_skips_the_levels_without_a_sibling() {
    assert_eq!(path_finder(5, 4), vec![Left, Right, Right]);
    assert_eq!(path_finder(5, 0), vec![Right, Right, Right]);
    assert_eq!(path_finder(3, 2), vec![Left, Right]);
    assert_eq!(path_finder(6, 4), vec![Right, Left, Right]);
    assert_eq!(path_finder(6, 5), vec![Left, Left, Right]);
    assert_eq!(path_finder(7, 6), vec![Left, Left, Right]);
}

#[test]
fn fold_puts_the_sibling_on_the_side_that_the_path_names() {
    let value = "Less".to_string();
    let start = Sha256Algorithm::hash(value.as_bytes());
    let sibling = Sha256Algorithm::hash(b"sibling");
    assert_eq!(
        compute_my_own_root(&value, &[sibling], vec![Direction::Right]),
        Ok(hash_pair(&start, &sibling))
    );
    assert_eq!(
        compute_my_own_root(&value, &[sibling], vec![Direction::Left]),
        Ok(hash_pair(&sibling, &start))
    );
}

#[test]
fn fold_without_siblings_is_the_digest_of_the_value() {
    let value = "Less".to_string();
    assert_eq!(
        compute_my_own_root(&value, &[], vec![]),
        Ok(Sha256Algorithm::hash(b"Less"))
    );
    assert_eq!(
        compute_my_own_root(&value, &[], vec![Direction::Left, Direction::Right]),
        Ok(Sha256Algorithm::hash(b"Less"))
    );
}

#[test]
fn fold_takes_the_siblings_in_order() {
    let value = "v".to_string();
    let a = Sha256Algorithm::hash(b"a");
    let b = Sha256Algorithm::hash(b"b");
    let start = Sha256Algorithm::hash(b"v");
    let expected = hash_pair(&hash_pair(&a, &start), &b);
    assert_eq!(
        compute_my_own_root(&value, &[a, b], vec![Direction::Left, Direction::Right]),
        Ok(expected)
    );
}

#[test]
fn fold_fails_where_the_path_is_shorter_than_the_proof() {
    let value = "v".to_string();
    let a = Sha256Algorithm::hash(b"a");
    assert_eq!(
        compute_my_own_root(&value, &[a], vec![]),
        Err(ProtocolError::ProofVerificationFailure)
    );
    assert_eq!(
        compute_my_own_root(&value, &[a, a, a], vec![Direction::Left, Direction::Right]),
        Err(ProtocolError::ProofVerificationFailure)
    );
}

#[test]
fn update_of_leaf_one_of_four_is_authenticated() {
    let leaves = numbered_leaves(4);
    let tree = compute_merkle_tree(&leaves);
    let proof = tree.prove(&[1]).unwrap();
    let new_value = "Less".to_string();
    let computed =
        compute_my_own_root(&new_value, proof.proof_hashes(), path_finder(4, 1)).unwrap();
    let updated = tree
        .replace_leaf(1, Sha256Algorithm::hash(new_value.as_bytes()))
        .unwrap();
    let true_root = updated.root().unwrap();
    assert_eq!(computed, true_root);
    assert!(compare_roots(&true_root, &computed));
    let mut forged = true_root;
    forged[5] ^= 0x10;
    assert!(!compare_roots(&forged, &computed));
    assert!(!compare_roots(&tree.root().unwrap(), &computed));
}

#[test]
fn update_of_leaf_zero_of_four_folds_the_new_leaf_first() {
    let leaves = numbered_leaves(4);
    let tree = compute_merkle_tree(&leaves);
    let proof = tree.prove(&[0]).unwrap();
    let new_value = "Less".to_string();
    let computed =
        compute_my_own_root(&new_value, proof.proof_hashes(), path_finder(4, 0)).unwrap();
    let new_leaf = Sha256Algorithm::hash(b"Less");
    let expected = hash_pair(
        &hash_pair(&new_leaf, &leaves[1]),
        &hash_pair(&leaves[2], &leaves[3]),
    );
    assert_eq!(computed, expected);
    assert_eq!(
        Some(computed),
        tree.replace_leaf(0, new_leaf).unwrap().root()
    );
}

#[test]
fn update_of_every_leaf_of_every_small_tree_is_authenticated() {
    for count in 1..=33usize {
        let leaves = numbered_leaves(count);
        let tree = compute_merkle_tree(&leaves);
        for index in 0..count {
            let proof = tree.prove(&[index]).unwrap();
            let new_value = "Less".to_string();
            let computed =
                root_after_update(&new_value, proof.proof_hashes(), count, index).unwrap();
            let mut updated = leaves.clone();
            updated[index] = Sha256Algorithm::hash(new_value.as_bytes());
            assert_eq!(
                Some(computed),
                compute_merkle_tree(&updated).root(),
                "{} of {}",
                index,
                count
            );
            assert_ne!(Some(computed), tree.root());
        }
    }
}

#[test]
fn root_after_update_refuses_a_proof_longer_than_the_path() {
    let value = "Less".to_string();
    let digest = Sha256Algorithm::hash(b"x");
    assert_eq!(
        root_after_update(&value, &[digest; 3], 4, 1),
        Err(ProtocolError::ProofVerificationFailure)
    );
    assert!(root_after_update(&value, &[digest; 2], 4, 1).is_ok());
    assert_eq!(
        root_after_update(&value, &[digest; 1], 1, 0),
        Err(ProtocolError::ProofVerificationFailure)
    );
    assert_eq!(
        root_after_update(&value, &[], 1, 0),
        Ok(Sha256Algorithm::hash(b"Less"))
    );
}

#[test]
fn compare_roots_is_equality() {
    let a = Sha256Algorithm::hash(b"a");
    let b = Sha256Algorithm::hash(b"b");
    assert!(compare_roots(&a, &a));
    assert!(!compare_roots(&a, &b));
}
