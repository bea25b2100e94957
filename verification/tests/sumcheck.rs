use cryptoutils::binary_field::{random, BinaryElem16, BinaryField};
use cryptoutils::multilinear_poly::MultiLinearPoly;
use cryptoutils::sumcheck::{
    double_sumcheck_prover, double_sumcheck_verifier, fold_quadratic, quadratic_from_evals,
    sumcheck_prover, sumcheck_verifier, QuadraticEvals, QuadraticPoly,
};

fn random_poly(k: usize) -> MultiLinearPoly<BinaryElem16> {
    let evals: Vec<BinaryElem16> = (0..(1 << k)).map(|_| random::<BinaryElem16>()).collect();
    MultiLinearPoly::new(evals)
}

fn product_sum(f: &MultiLinearPoly<BinaryElem16>, g: &MultiLinearPoly<BinaryElem16>) -> BinaryElem16 {
    f.evals()
        .iter()
        .zip(g.evals().iter())
        .map(|(fi, gi)| fi.mul(*gi))
        .fold(BinaryElem16::zero(), |acc, x| acc.add(x))
}

#[test]
fn test_sumcheck_basic() {
    let f = random_poly(2);
    let claimed_sum = f.sum();

    let (transcript, ris) = sumcheck_prover(&f, claimed_sum);

    let verified = sumcheck_verifier(transcript, ris, claimed_sum, &f);
    assert!(verified, "Sumcheck verification should pass");
}

#[test]
fn test_double_sumcheck_basic() {
    let f = random_poly(2);
    let g = random_poly(2);

    let claimed_sum = product_sum(&f, &g);

    let (transcript, ris) = double_sumcheck_prover(&f, &g);

    let verified = double_sumcheck_verifier(transcript, ris, claimed_sum, &f, &g);
    assert!(verified, "Double sumcheck verification should pass");
}

#[test]
fn test_sumcheck_larger() {
    let f = random_poly(4);
    let claimed_sum = f.sum();

    let (transcript, ris) = sumcheck_prover(&f, claimed_sum);
    let verified = sumcheck_verifier(transcript, ris, claimed_sum, &f);
    assert!(verified, "Larger sumcheck verification should pass");
}

#[test]
fn test_sumcheck_single_variable() {
    let f = random_poly(1);
    let claimed_sum = f.sum();

    let (transcript, ris) = sumcheck_prover(&f, claimed_sum);
    let verified = sumcheck_verifier(transcript, ris, claimed_sum, &f);
    assert!(verified, "Single variable sumcheck should pass");
}

#[test]
fn test_double_sumcheck_larger() {
    let f = random_poly(3);
    let g = random_poly(3);

    let claimed_sum = product_sum(&f, &g);

    let (transcript, ris) = double_sumcheck_prover(&f, &g);
    let verified = double_sumcheck_verifier(transcript, ris, claimed_sum, &f, &g);
    assert!(verified, "Larger double sumcheck should pass");
}

#[test]
fn test_sumcheck_known_values() {
    let evals = vec![
        BinaryElem16::new(1),
        BinaryElem16::new(2),
        BinaryElem16::new(3),
        BinaryElem16::new(4),
    ];
    let f = MultiLinearPoly::new(evals);
    let claimed_sum = f.sum();

    let (transcript, ris) = sumcheck_prover(&f, claimed_sum);
    let verified = sumcheck_verifier(transcript, ris, claimed_sum, &f);
    assert!(verified, "Known values sumcheck should pass");
}

#[test]
fn test_sumcheck_rejects_wrong_claim() {
    let evals = vec![
        BinaryElem16::new(1),
        BinaryElem16::new(2),
        BinaryElem16::new(3),
        BinaryElem16::new(4),
    ];
    let f = MultiLinearPoly::new(evals);
    let claimed_sum = f.sum();
    // 1 ^ 2 ^ 3 ^ 4 = 4
    assert_eq!(claimed_sum, BinaryElem16::new(4));
    let (transcript, ris) = sumcheck_prover(&f, claimed_sum);
    assert_eq!(transcript[0], (BinaryElem16::new(3), BinaryElem16::new(7)));
    let verified = sumcheck_verifier(transcript, ris, BinaryElem16::new(5), &f);
    assert!(!verified);
}

#[test]
fn test_double_sumcheck_rejects_wrong_claim() {
    let f = random_poly(3);
    let g = random_poly(3);
    let claimed_sum = product_sum(&f, &g);
    let (transcript, ris) = double_sumcheck_prover(&f, &g);
    let wrong = claimed_sum.add(BinaryElem16::one());
    assert!(!double_sumcheck_verifier(transcript, ris, wrong, &f, &g));
}

#[test]
fn test_quadratic_construction() {
    let at0 = BinaryElem16::new(100);
    let at1 = BinaryElem16::new(200);
    let atx = BinaryElem16::new(150);

    let quad = quadratic_from_evals(at0, at1, atx, None);

    let eval_0 = quad.eval_quadratic(BinaryElem16::zero());
    let eval_1 = quad.eval_quadratic(BinaryElem16::one());
    let eval_3 = quad.eval_quadratic(BinaryElem16::new(3));

    assert_eq!(eval_0, at0);
    assert_eq!(eval_1, at1);
    assert_eq!(eval_3, atx);

    let _eval_2 = quad.eval_quadratic(BinaryElem16::new(2));
}

#[test]
fn test_quadratic_with_explicit_point() {
    let at0 = BinaryElem16::new(7);
    let at1 = BinaryElem16::new(9);
    let atx = BinaryElem16::new(1234);
    let x = BinaryElem16::new(5);
    let quad = quadratic_from_evals(at0, at1, atx, Some(x));
    assert_eq!(quad.c, at0);
    assert_eq!(quad.eval_quadratic(BinaryElem16::zero()), at0);
    assert_eq!(quad.eval_quadratic(BinaryElem16::one()), at1);
    assert_eq!(quad.eval_quadratic(x), atx);
}

#[test]
fn test_fold_quadratic_coefficients() {
    let p1 = QuadraticPoly::new(BinaryElem16::new(1), BinaryElem16::new(2), BinaryElem16::new(3));
    let p2 = QuadraticPoly::new(BinaryElem16::new(4), BinaryElem16::new(5), BinaryElem16::new(6));
    let alpha = BinaryElem16::new(1);
    let p = fold_quadratic(p1, p2, alpha);
    assert_eq!(p.a, BinaryElem16::new(5));
    assert_eq!(p.b, BinaryElem16::new(7));
    assert_eq!(p.c, BinaryElem16::new(5));
}

#[test]
fn test_quadratic_evals_bytes() {
    let e = QuadraticEvals::new(BinaryElem16::new(0x0102), BinaryElem16::new(3), BinaryElem16::new(0xff00));
    assert_eq!(e.to_bytes(), vec![2, 1, 3, 0, 0, 0xff]);
}

#[test]
fn test_quadratic_recovered_from_three_values() {
    let p = QuadraticPoly::new(BinaryElem16::new(0x1234), BinaryElem16::new(77), BinaryElem16::new(0xbeef));
    let at0 = p.eval_quadratic(BinaryElem16::zero());
    let at1 = p.eval_quadratic(BinaryElem16::one());
    let at3 = p.eval_quadratic(BinaryElem16::new(3));
    let q = quadratic_from_evals(at0, at1, at3, None);
    assert_eq!((q.a, q.b, q.c), (p.a, p.b, p.c));
}
