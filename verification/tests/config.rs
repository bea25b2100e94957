use cryptoutils::binary_field::{BinaryElem32, BinaryField};
use cryptoutils::config::{
    hardcoded_config_20, hardcoded_config_20_verifier, hardcoded_config_24_verifier,
};
use cryptoutils::data_structures::{ProofSize, ProverConfig};
use cryptoutils::ligerito_verifier::ligerito_verifier;
use cryptoutils::prover::prover;
use cryptoutils::ligero::{extract_row, ligero_commit};
use cryptoutils::merkle_tree::{prove, verify};
use std::time::Instant;

#[test]
fn test_merkle_with_ligero_data() {

    let m = 16384;
    let n = 64;
    let poly: Vec<BinaryElem32> = (0..(m * n)).map(|i| BinaryElem32::new(i as u32)).collect();
    let prover_config = hardcoded_config_20::<BinaryElem32>();

    let wtns = ligero_commit(
        &poly,
        prover_config.initial_dims.0,
        prover_config.initial_dims.1,
        &prover_config.initial_reed_solomon,
    );

    println!("Ligero commit test:");
    println!("  Tree depth: {}", wtns.tree.len() - 1);
    println!("  Num rows: {}", wtns.num_rows);
    println!("  Num cols: {}", wtns.num_cols);

    let mut queries = vec![0, 1, 100, 50459, 50294, 1959];
    queries.sort();
    let opened_rows: Vec<Vec<BinaryElem32>> = queries
        .iter()
        .map(|&q| extract_row(&wtns.flat_mat, q, wtns.num_rows, wtns.num_cols))
        .collect();

    let opened_rows_bytes: Vec<Vec<u8>> = opened_rows
        .iter()
        .map(|row| row.iter().flat_map(|elem| elem.to_bytes()).collect())
        .collect();

    let proof = prove(&wtns.tree, &queries);
    let root = wtns.tree.last().unwrap();
    let depth = wtns.tree.len() - 1;

    println!("  Proof length: {}", proof.len());
    println!("  Root: {:?}", &root[..16]);

    let is_valid = verify(root, &proof, depth, &opened_rows_bytes, &queries);
    println!("  Verification result: {}", is_valid);

    if !is_valid {
        println!("  First query: {}", queries[0]);
        println!("  First opened row length: {}", opened_rows_bytes[0].len());
        println!(
            "  First opened row first 16 bytes: {:?}",
            &opened_rows_bytes[0][..16]
        );
        println!("  Proof first element: {:?}", &proof[0][..16]);
    }

    assert!(is_valid, "Ligero Merkle verification should pass");
}

#[test]
fn test_prove_verify_config_20() {

    let total_start = Instant::now();

    let poly: Vec<BinaryElem32> = (0..(1 << 20))
        .map(|_| BinaryElem32::new(rand::random()))
        .collect();

    let prover_config: ProverConfig<BinaryElem32> = hardcoded_config_20::<BinaryElem32>();
    let verifier_config = hardcoded_config_20_verifier();

    let prover_start = Instant::now();
    let proof = prover(prover_config, poly).expect("the prover should produce a proof");
    let prover_duration = prover_start.elapsed();

    let verifier_start = Instant::now();
    let verification_result = ligerito_verifier(verifier_config, proof);
    let verifier_duration = verifier_start.elapsed();

    let total_duration = total_start.elapsed();

    println!("=== Performance Results ===");
    println!("Prover time:    {:>8.2?}", prover_duration);
    println!("Verifier time:  {:>8.2?}", verifier_duration);
    println!("Total time:     {:>8.2?}", total_duration);
    println!("===========================");

    assert!(verification_result, "Verification should pass");
}

#[test]
fn test_config_values() {
    let c = hardcoded_config_20::<BinaryElem32>();
    assert_eq!(c.recursive_steps, 1);
    assert_eq!(c.initial_dims, (16384, 64));
    assert_eq!(c.dims, vec![(1024, 16)]);
    assert_eq!(c.initial_k, 6);
    assert_eq!(c.ks, vec![4]);
    assert_eq!(c.initial_reed_solomon.message_length(), 16384);
    assert_eq!(c.initial_reed_solomon.block_length(), 65536);
    assert_eq!(c.reed_solomon_codes[0].block_length(), 4096);
    let v = hardcoded_config_20_verifier();
    assert_eq!((v.recursive_steps, v.initial_dim, v.initial_k), (1, 14, 6));
    assert_eq!(v.log_dims, vec![10]);
    let v24 = hardcoded_config_24_verifier();
    assert_eq!((v24.recursive_steps, v24.initial_dim, v24.initial_k), (2, 18, 6));
    assert_eq!(v24.log_dims, vec![14, 10]);
    assert_eq!(v24.ks, vec![4, 4]);
}

#[test]
fn test_tampered_proof_is_rejected() {
    let poly: Vec<BinaryElem32> = (0..(1u32 << 20)).map(|i| BinaryElem32::new(i.wrapping_mul(2654435761))).collect();
    let proof = prover(hardcoded_config_20::<BinaryElem32>(), poly).unwrap();
    assert!(proof.proof_size() > 0);
    let mut bad = proof;
    bad.final_ligero_proof.yr[0] = bad.final_ligero_proof.yr[0].add(BinaryElem32::one());
    assert!(!ligerito_verifier(hardcoded_config_20_verifier(), bad));
}

#[test]
fn test_tampered_round_values_are_rejected() {
    let poly: Vec<BinaryElem32> = (0..(1u32 << 20)).map(|i| BinaryElem32::new(i.wrapping_mul(40503).wrapping_add(7))).collect();
    let proof = prover(hardcoded_config_20::<BinaryElem32>(), poly).unwrap();
    let mut bad = proof;
    let (a, b, c) = bad.sumcheck_transcript.tr[2];
    bad.sumcheck_transcript.tr[2] = (a.add(BinaryElem32::one()), b, c);
    assert!(!ligerito_verifier(hardcoded_config_20_verifier(), bad));
}
