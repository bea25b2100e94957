use cryptoutils::binary_field::{BinaryElem16, BinaryField};
use cryptoutils::multilinear_poly::{eval_013_product, MultiLinearPoly};
use cryptoutils::utils::evaluate_lagrange_basis;

fn elems(v: &[u16]) -> Vec<BinaryElem16> {
    v.iter().map(|&x| BinaryElem16::new(x)).collect()
}

#[test]
fn test_partial_eval_at_0_and_1() {
    let f = MultiLinearPoly::new(elems(&[1, 2, 3, 4, 5, 6, 7, 8]));
    assert_eq!(f.num_vars(), 3);
    assert_eq!(f.partial_eval(&elems(&[0])).evals(), &elems(&[1, 2, 3, 4]));
    assert_eq!(f.partial_eval(&elems(&[1])).evals(), &elems(&[5, 6, 7, 8]));
    assert_eq!(f.partial_eval_at_0().evals(), &elems(&[1, 2, 3, 4]));
    assert_eq!(f.partial_eval_at_1().evals(), &elems(&[5, 6, 7, 8]));
    assert_eq!(f.partial_eval(&elems(&[1, 0, 1])).evals(), &elems(&[6]));
    // 1 ^ 2 ^ ... ^ 8 = 8
    assert_eq!(f.sum(), BinaryElem16::new(8));
    assert_eq!(f.eval_012(), (BinaryElem16::new(4), BinaryElem16::new(12)));
}

#[test]
fn test_partial_eval_matches_lagrange_basis() {
    let f = MultiLinearPoly::new(elems(&[3, 1, 4, 1, 5, 9, 2, 6]));
    let rs = elems(&[7, 11, 13]);
    let value = f.partial_eval(&rs).evals()[0];
    let basis = evaluate_lagrange_basis(&rs);
    assert_eq!(basis.len(), 8);
    let combined = f
        .evals()
        .iter()
        .zip(basis.iter())
        .fold(BinaryElem16::zero(), |acc, (&a, &b)| acc.add(a.mul(b)));
    assert_eq!(value, combined);
}

#[test]
fn test_lagrange_basis_at_boolean_point() {
    // At a point of the hypercube the basis is the indicator of that point.
    let rs = elems(&[1, 0]);
    let basis = evaluate_lagrange_basis(&rs);
    assert_eq!(basis, elems(&[0, 0, 1, 0]));
}

#[test]
fn test_scale_and_eval_013() {
    let mut f = MultiLinearPoly::new(elems(&[1, 2, 3, 4]));
    f.scale_evals(BinaryElem16::one());
    assert_eq!(f.evals(), &elems(&[1, 2, 3, 4]));
    f.scale_evals(BinaryElem16::zero());
    assert_eq!(f.evals(), &elems(&[0, 0, 0, 0]));
    let g = MultiLinearPoly::new(elems(&[1, 0, 0, 0]));
    let h = MultiLinearPoly::new(elems(&[5, 7, 9, 11]));
    let (s0, s1, _s3) = eval_013_product(&g, &h);
    assert_eq!(s0, BinaryElem16::new(5));
    assert_eq!(s1, BinaryElem16::zero());
    let c = h.clone();
    assert_eq!(c.evals(), h.evals());
}
