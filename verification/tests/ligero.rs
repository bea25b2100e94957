use cryptoutils::binary_field::{BinaryElem16, BinaryField};
use cryptoutils::data_structures::{
    FinalLigeroProof, ProofSize, RecursiveLigeroCommitment, RecursiveLigeroProof, SumcheckTranscript,
};
use cryptoutils::ligero::{extract_row, ligero_commit, ligero_verify};
use cryptoutils::merkle_tree::{prove, verify};
use cryptoutils::multilinear_poly::MultiLinearPoly;
use cryptoutils::reed_solomon::ReedSolomonEncoding;
use cryptoutils::sumcheck_polys::{induce_sumcheck_poly, precompute_alpha_powers};
use cryptoutils::binary_fft::eval_sk_at_vks;

#[test]
fn test_ligero_rows_agree_with_folded_polynomial() {
    // 4 columns of 16 symbols, encoded to 64 rows.
    let m = 16;
    let n = 4;
    let poly: Vec<BinaryElem16> = (0..(m * n)).map(|i| BinaryElem16::new((i * 37 + 5) as u16)).collect();
    let rs = ReedSolomonEncoding::<BinaryElem16>::new(m, 4 * m);
    let w = ligero_commit(&poly, m, n, &rs);
    assert_eq!(w.num_rows, 64);
    assert_eq!(w.num_cols, 4);
    assert_eq!(w.tree.len(), 7);

    let challenges = vec![BinaryElem16::new(1234), BinaryElem16::new(4321)];
    let yr = MultiLinearPoly::new(poly.clone()).partial_eval(&challenges).evals().clone();
    assert_eq!(yr.len(), m);

    let queries = vec![0usize, 5, 17, 63];
    let rows: Vec<Vec<BinaryElem16>> =
        queries.iter().map(|&q| extract_row(&w.flat_mat, q, w.num_rows, w.num_cols)).collect();
    assert!(ligero_verify(&queries, &rows, &yr, &challenges));

    // the rows are committed to
    let leaves: Vec<Vec<u8>> = rows.iter().map(|r| r.iter().flat_map(|e| e.to_bytes()).collect()).collect();
    let proof = prove(&w.tree, &queries);
    assert!(verify(w.tree.last().unwrap(), &proof, 6, &leaves, &queries));

    // a changed row is caught
    let mut bad = rows.clone();
    bad[2][1] = bad[2][1].add(BinaryElem16::one());
    assert!(!ligero_verify(&queries, &bad, &yr, &challenges));
}

#[test]
fn test_alpha_powers_and_induced_sum() {
    let alpha = BinaryElem16::new(3);
    let pows = precompute_alpha_powers(alpha, 4);
    assert_eq!(pows, vec![
        BinaryElem16::one(),
        alpha,
        alpha.mul(alpha),
        alpha.mul(alpha).mul(alpha)
    ]);
    assert_eq!(precompute_alpha_powers(alpha, 0), vec![BinaryElem16::one()]);

    // one row, challenge 0: the Lagrange basis picks the row's first entry
    let sks = eval_sk_at_vks::<BinaryElem16>(4);
    let rows = vec![vec![BinaryElem16::new(9), BinaryElem16::new(10)]];
    let (basis, sum) = induce_sumcheck_poly(2, &sks, &rows, &vec![BinaryElem16::zero()], &vec![0usize], alpha);
    assert_eq!(sum, BinaryElem16::new(9));
    assert_eq!(basis.len(), 4);
    // the novel basis at 0 is the first indicator
    assert_eq!(basis, vec![BinaryElem16::one(), BinaryElem16::zero(), BinaryElem16::zero(), BinaryElem16::zero()]);
}

#[test]
fn test_proof_sizes() {
    let p = RecursiveLigeroProof::<BinaryElem16> {
        opened_rows: vec![vec![BinaryElem16::one(); 3], vec![BinaryElem16::one(); 2]],
        merkle_proof: vec![vec![0u8; 32], vec![0u8; 32]],
    };
    assert_eq!(p.proof_size(), 5 * 2 + 64);
    let f = FinalLigeroProof::<BinaryElem16> {
        yr: vec![BinaryElem16::one(); 4],
        opened_rows: vec![vec![BinaryElem16::one(); 2]],
        merkle_proof: vec![vec![0u8; 32]],
    };
    assert_eq!(f.proof_size(), 8 + 4 + 32);
    let t = SumcheckTranscript::<BinaryElem16> { tr: vec![(BinaryElem16::one(), BinaryElem16::one(), BinaryElem16::one()); 3] };
    assert_eq!(t.proof_size(), 18);
    let c = RecursiveLigeroCommitment { root: vec![1u8; 32] };
    assert_eq!(c.proof_size(), 32);
}
