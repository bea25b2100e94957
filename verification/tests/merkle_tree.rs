use cryptoutils::merkle_tree::{build_merkle_tree, prove, verify};

fn str_leaves(leaves: &[&str]) -> Vec<Vec<u8>> {
    leaves.iter().map(|s| s.as_bytes().to_vec()).collect()
}

#[test]
fn test_simple_merkle_tree() {
    let leaves = str_leaves(&["hello", "world", "rust", "test"]);
    let layers = build_merkle_tree(leaves);

    assert_eq!(layers.len(), 3);
    assert_eq!(layers[0].len(), 128);
    assert_eq!(layers[1].len(), 64);
    assert_eq!(layers[2].len(), 32);

    let expected_root = vec![
        27, 31, 141, 106, 120, 231, 92, 57, 126, 100, 218, 70, 17, 208, 139, 253, 52, 148, 110,
        160, 229, 27, 10, 236, 193, 146, 31, 236, 141, 245, 76, 152,
    ];
    assert_eq!(layers[2], expected_root);
}

#[test]
fn test_prove_sparse_queries() {
    let leaves = str_leaves(&["hello", "world", "rust", "test"]);
    let tree = build_merkle_tree(leaves);

    let queries = vec![0, 2];
    let proof = prove(&tree, &queries);

    let expected_proof = vec![
        vec![
            72, 110, 164, 98, 36, 209, 187, 79, 182, 128, 243, 79, 124, 154, 217, 106, 143, 36,
            236, 136, 190, 115, 234, 142, 90, 108, 101, 38, 14, 156, 184, 167,
        ],
        vec![
            159, 134, 208, 129, 136, 76, 125, 101, 154, 47, 234, 160, 197, 90, 208, 21, 163,
            191, 79, 27, 43, 11, 130, 44, 209, 93, 108, 21, 176, 240, 10, 8,
        ],
    ];

    assert_eq!(proof.len(), 2);
    assert_eq!(proof, expected_proof);
}

#[test]
fn test_prove_consecutive_queries() {
    let leaves = str_leaves(&["hello", "world", "rust", "test"]);
    let tree = build_merkle_tree(leaves);

    let queries = vec![0, 1, 2];
    let proof = prove(&tree, &queries);

    let expected_proof = vec![vec![
        159, 134, 208, 129, 136, 76, 125, 101, 154, 47, 234, 160, 197, 90, 208, 21, 163, 191,
        79, 27, 43, 11, 130, 44, 209, 93, 108, 21, 176, 240, 10, 8,
    ]];

    assert_eq!(proof.len(), 1);
    assert_eq!(proof, expected_proof);
}

#[test]
fn test_prove_and_verify_roundtrip() {
    let leaves = str_leaves(&["hello", "world", "rust", "test"]);
    let tree = build_merkle_tree(leaves.clone());

    let root = tree.last().unwrap().clone();
    let depth = tree.len() - 1;

    let queries = vec![0, 2];
    let proof = prove(&tree, &queries);
    let queried_leaves = vec![leaves[0].clone(), leaves[2].clone()];

    let is_valid = verify(&root, &proof, depth, &queried_leaves, &queries);
    assert!(is_valid, "Verification should succeed for sparse queries");

    let queries2 = vec![0, 1, 2];
    let proof2 = prove(&tree, &queries2);
    let queried_leaves2 = vec![leaves[0].clone(), leaves[1].clone(), leaves[2].clone()];

    let is_valid2 = verify(&root, &proof2, depth, &queried_leaves2, &queries2);
    assert!(
        is_valid2,
        "Verification should succeed for consecutive queries"
    );
}

#[test]
fn test_roundtrip_every_query_set_of_eight_leaves() {
    let leaves: Vec<Vec<u8>> = (0..8u8).map(|i| vec![i, i.wrapping_mul(7), 42]).collect();
    let tree = build_merkle_tree(leaves.clone());
    let root = tree.last().unwrap().clone();
    let depth = tree.len() - 1;
    for mask in 1u32..256 {
        let queries: Vec<usize> = (0..8).filter(|i| mask & (1 << i) != 0).collect();
        let proof = prove(&tree, &queries);
        let opened: Vec<Vec<u8>> = queries.iter().map(|&q| leaves[q].clone()).collect();
        assert!(verify(&root, &proof, depth, &opened, &queries), "mask {}", mask);
    }
}

#[test]
fn test_verify_rejects_tampering() {
    let leaves = str_leaves(&["hello", "world", "rust", "test"]);
    let tree = build_merkle_tree(leaves.clone());
    let root = tree.last().unwrap().clone();
    let depth = tree.len() - 1;
    let queries = vec![0, 2];
    let proof = prove(&tree, &queries);

    // a wrong leaf
    let wrong_leaves = vec![leaves[0].clone(), leaves[1].clone()];
    assert!(!verify(&root, &proof, depth, &wrong_leaves, &queries));

    // a changed proof hash
    let mut bad_proof = proof.clone();
    bad_proof[0][0] ^= 1;
    let opened = vec![leaves[0].clone(), leaves[2].clone()];
    assert!(!verify(&root, &bad_proof, depth, &opened, &queries));

    // a proof that is too short
    let short_proof = vec![proof[0].clone()];
    assert!(!verify(&root, &short_proof, depth, &opened, &queries));

    // fewer leaves than indices
    assert!(!verify(&root, &proof, depth, &vec![leaves[0].clone()], &queries));

    // no queries at all
    assert!(!verify(&root, &proof, depth, &vec![], &vec![]));
}

#[test]
fn test_single_leaf_tree() {
    let leaves = str_leaves(&["only"]);
    let tree = build_merkle_tree(leaves.clone());
    assert_eq!(tree.len(), 1);
    assert_eq!(tree[0].len(), 32);
    let proof = prove(&tree, &vec![0]);
    assert!(proof.is_empty());
    assert!(verify(&tree[0], &proof, 0, &leaves, &vec![0]));
}
