use merkle_audit::audit_proof::MerkleProof;
use merkle_audit::hasher::Sha256Algorithm;
use merkle_audit::tree::compute_merkle_tree;

fn numbered_leaves(count: usize) -> Vec<[u8; 32]> {
    (0..count)
        .map(|i| Sha256Algorithm::hash(format!("item{}", i).as_bytes()))
        .collect()
}

#[test]
fn verify_answers_on_every_odd_input() {
    let leaves = numbered_leaves(5);
    let tree = compute_merkle_tree(&leaves);
    let root = tree.root().unwrap();
    let honest = tree.prove(&[1]).unwrap();
    let index_lists: Vec<Vec<usize>> = vec![
        vec![],
        vec![0],
        vec![4],
        vec![5],
        vec![6],
        vec![usize::MAX],
        vec![usize::MAX - 1],
        vec![0, 0],
        vec![1, 1, 1],
        vec![3, 1],
        vec![4, 0, 2],
        vec![0, usize::MAX],
        vec![usize::MAX, usize::MAX - 1, 0],
        (0..5).collect(),
        (0..9).collect(),
    ];
    let totals = [0usize, 1, 2, 3, 4, 5, 6, 7, 8, 9, 1 << 20, usize::MAX - 1, usize::MAX];
    let proofs: Vec<Vec<[u8; 32]>> = vec![
        vec![],
        honest.proof_hashes().to_vec(),
        leaves.clone(),
        numbered_leaves(70),
    ];
    let mut accepted = 0usize;
    for hashes in &proofs {
        for indices in &index_lists {
            for total in totals {
                let chosen: Vec<[u8; 32]> =
                    indices.iter().map(|&i| leaves[i % 5]).collect();
                let proof = MerkleProof::new(hashes.clone());
                if proof.verify(root, indices, &chosen, total) {
                    accepted += 1;
                }
                let short = &chosen[..chosen.len() / 2];
                if proof.verify(root, indices, short, total) && !indices.is_empty() {
                    accepted += 1;
                }
            }
        }
    }
    assert!(accepted >= 1);
}

#[test]
fn verify_accepts_digests_behind_the_needed_ones() {
    let leaves = numbered_leaves(4);
    let tree = compute_merkle_tree(&leaves);
    let root = tree.root().unwrap();
    let mut hashes = tree.prove(&[1]).unwrap().proof_hashes().to_vec();
    hashes.push(Sha256Algorithm::hash(b"one too many"));
    let padded = MerkleProof::new(hashes);
    assert!(padded.verify(root, &[1], &[leaves[1]], 4));
}

#[test]
fn verify_refuses_a_proof_that_is_too_short() {
    let leaves = numbered_leaves(4);
    let tree = compute_merkle_tree(&leaves);
    let root = tree.root().unwrap();
    let mut hashes = tree.prove(&[1]).unwrap().proof_hashes().to_vec();
    hashes.pop();
    assert!(!MerkleProof::new(hashes).verify(root, &[1], &[leaves[1]], 4));
    assert!(!MerkleProof::new(Vec::new()).verify(root, &[1], &[leaves[1]], 4));
}

#[test]
fn prove_answers_on_every_list_of_valid_indices() {
    for count in 1..=9usize {
        let leaves = numbered_leaves(count);
        let tree = compute_merkle_tree(&leaves);
        let lists: Vec<Vec<usize>> = vec![
            vec![],
            vec![count - 1],
            vec![0, 0],
            vec![count - 1, 0],
            (0..count).rev().collect(),
            (0..count).chain(0..count).collect(),
        ];
        for indices in lists {
            assert!(tree.prove(&indices).is_ok());
        }
    }
}
