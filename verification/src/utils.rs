//! The multilinear Lagrange basis.
use crate::binary_field::BinaryField;
use crate::multilinear_poly::{lemma_partial_eval_snoc, spec_fold_once, spec_inner, spec_partial_eval, spec_sum};
use crate::sumcheck::{lemma_sum_pointwise_add, lemma_sum_scale};
use vstd::arithmetic::power2::*;
use vstd::prelude::*;

verus! {

/// The multilinear Lagrange basis at the point `rs[0 .. k]` (for `k >= 1`):
/// entry `2 j` of level `k + 1` is entry `j` of level `k` times `1 + r_k`,
/// entry `2 j + 1` is it times `r_k`.
pub open spec fn spec_lagrange_basis<F: BinaryField>(rs: Seq<F>, k: nat) -> Seq<F>
    decreases k,
{
    if k <= 1 {
        seq![F::spec_add(F::spec_one(), rs[0]), rs[0]]
    } else {
        let prev = spec_lagrange_basis(rs, (k - 1) as nat);
        let r = rs[k - 1];
        Seq::new(
            2 * prev.len(),
            |m: int|
                if m % 2 == 0 {
                    F::spec_mul(prev[m / 2], F::spec_add(F::spec_one(), r))
                } else {
                    F::spec_mul(prev[m / 2], r)
                },
        )
    }
}

pub proof fn lemma_lagrange_basis_len<F: BinaryField>(rs: Seq<F>, k: nat)
    requires
        k >= 1,
    ensures
        spec_lagrange_basis(rs, k).len() == pow2(k),
    decreases k,
{
    lemma2_to64();
    if k > 1 {
        lemma_lagrange_basis_len(rs, (k - 1) as nat);
        lemma_pow2_unfold(k);
    }
}

/// The `2^rs.len()` values of the multilinear Lagrange basis at `rs`.
pub fn evaluate_lagrange_basis<F: BinaryField>(rs: &Vec<F>) -> (r: Vec<F>)
    requires
        rs.len() >= 1,
        pow2(rs.len() as nat) <= usize::MAX,
    ensures
        r@ == spec_lagrange_basis(rs@, rs.len() as nat),
        r@.len() == pow2(rs.len() as nat),
{
    let one_elem = F::one();
    let mut current_layer: Vec<F> = Vec::with_capacity(2);
    current_layer.push(one_elem.add(rs[0]));
    current_layer.push(rs[0]);
    let mut layer_len: usize = 2;
    proof {
        lemma2_to64();
        assert(current_layer@ =~= spec_lagrange_basis(rs@, 1));
    }
    let mut i: usize = 1;
    while i < rs.len()
        invariant
            1 <= i <= rs.len(),
            one_elem == F::spec_one(),
            pow2(rs.len() as nat) <= usize::MAX,
            layer_len == pow2(i as nat),
            current_layer@ == spec_lagrange_basis(rs@, i as nat),
            current_layer@.len() == layer_len,
        decreases rs.len() - i,
    {
        proof {
            lemma_pow2_unfold((i + 1) as nat);
            if i + 1 < rs.len() {
                lemma_pow2_strictly_increases((i + 1) as nat, rs.len() as nat);
            }
        }
        let next_layer_size = 2 * layer_len;
        let ri = rs[i];
        let ri_p_one = one_elem.add(ri);
        let ghost target = spec_lagrange_basis(rs@, (i + 1) as nat);
        let mut next_layer: Vec<F> = Vec::with_capacity(next_layer_size);
        let mut j: usize = 0;
        while j < layer_len
            invariant
                j <= layer_len,
                next_layer_size == 2 * layer_len,
                next_layer_size <= usize::MAX,
                1 <= i < rs.len(),
                ri == rs@[i as int],
                ri_p_one == F::spec_add(F::spec_one(), ri),
                current_layer@.len() == layer_len,
                current_layer@ == spec_lagrange_basis(rs@, i as nat),
                target == spec_lagrange_basis(rs@, (i + 1) as nat),
                next_layer@.len() == 2 * j,
                forall|m: int| 0 <= m < 2 * j ==> #[trigger] next_layer@[m] == target[m],
            decreases layer_len - j,
        {
            let c = current_layer[j];
            next_layer.push(c.mul(ri_p_one));
            next_layer.push(c.mul(ri));
            j = j + 1;
        }
        assert(next_layer@ =~= target);
        current_layer = next_layer;
        layer_len = next_layer_size;
        i = i + 1;
    }
    current_layer
}

/// For every `t < stride`, the sum over `m` of the Lagrange basis at
/// `rs[0 .. j]` times `f[m stride + t]`.
pub open spec fn spec_lagrange_combination<F: BinaryField>(f: Seq<F>, rs: Seq<F>, j: nat, stride: nat) -> Seq<F> {
    Seq::new(
        stride,
        |t: int| spec_sum(Seq::new(pow2(j), |m: int| F::spec_mul(spec_lagrange_basis(rs, j)[m], f[m * stride + t]))),
    )
}

/// Summing a sequence of even length by adjacent pairs.
proof fn lemma_sum_pairs<F: BinaryField>(g: spec_fn(int) -> F, n: nat)
    ensures
        spec_sum(Seq::new(2 * n, g)) == spec_sum(Seq::new(n, |m: int| F::spec_add(g(2 * m), g(2 * m + 1)))),
    decreases n,
{
    let s = Seq::new(2 * n, g);
    let p = Seq::new(n, |m: int| F::spec_add(g(2 * m), g(2 * m + 1)));
    if n > 0 {
        let k = (n - 1) as nat;
        lemma_sum_pairs(g, k);
        assert(s.drop_last().drop_last() =~= Seq::new(2 * k, g));
        assert(p.drop_last() =~= Seq::new(k, |m: int| F::spec_add(g(2 * m), g(2 * m + 1))));
        F::lemma_add_assoc(spec_sum(Seq::new(2 * k, g)), g((2 * k) as int), g((2 * k + 1) as int));
        assert(spec_sum(s) == F::spec_add(spec_sum(s.drop_last()), g((2 * k + 1) as int)));
        assert(spec_sum(s.drop_last()) == F::spec_add(spec_sum(s.drop_last().drop_last()), g((2 * k) as int)));
        assert(spec_sum(p) == F::spec_add(spec_sum(p.drop_last()), F::spec_add(g((2 * k) as int), g((2 * k + 1) as int))));
    }
}

/// Fixing the first `j` variables of `f` to `rs[0 .. j]` combines the
/// slices of `f` with the Lagrange basis at those values.
pub(crate) proof fn lemma_partial_eval_lagrange_prefix<F: BinaryField>(f: Seq<F>, rs: Seq<F>, k: nat, j: nat)
    requires
        f.len() == pow2(k),
        rs.len() == k,
        1 <= j <= k,
    ensures
        spec_partial_eval(f, rs.subrange(0, j as int)) == spec_lagrange_combination(f, rs, j, pow2((k - j) as nat)),
    decreases j,
{
    let one = F::spec_one();
    lemma2_to64();
    if j == 1 {
        let r = rs[0];
        let h = pow2((k - 1) as nat);
        lemma_pow2_unfold(k);
        assert(rs.subrange(0, 1) =~= seq![r]);
        assert(seq![r].drop_first() =~= Seq::<F>::empty());
        assert(spec_partial_eval(f, seq![r]) == spec_partial_eval(spec_fold_once(f, r), Seq::<F>::empty()));
        let lhs = spec_fold_once(f, r);
        let rhs = spec_lagrange_combination(f, rs, 1, h);
        assert forall|t: int| 0 <= t < h implies lhs[t] == rhs[t] by {
            let l = spec_lagrange_basis(rs, 1);
            let q = Seq::new(pow2(1), |m: int| F::spec_mul(spec_lagrange_basis(rs, 1)[m], f[m * h + t]));
            assert(rhs[t] == spec_sum(q));
            assert(q.len() == 2);
            assert(q.drop_last().drop_last() =~= Seq::<F>::empty());
            assert(spec_sum(q.drop_last().drop_last()) == F::spec_zero());
            F::lemma_add_zero(q[0]);
            assert(spec_sum(q.drop_last()) == q[0]);
            assert(q[0] == F::spec_mul(F::spec_add(one, r), f[t]));
            assert(q[1] == F::spec_mul(r, f[h + t]));
            assert(spec_sum(q) == F::spec_add(q[0], q[1]));
        }
        assert(lhs =~= rhs);
    } else {
        let i = (j - 1) as nat;
        lemma_partial_eval_lagrange_prefix(f, rs, k, i);
        let pre = rs.subrange(0, i as int);
        let r = rs[i as int];
        lemma_partial_eval_snoc(f, pre, r);
        assert(pre.push(r) =~= rs.subrange(0, j as int));
        let st = pow2((k - i) as nat);
        let h = pow2((k - j) as nat);
        lemma_pow2_unfold((k - i) as nat);
        assert(st == 2 * h);
        let lp = spec_lagrange_basis(rs, i);
        let ln = spec_lagrange_basis(rs, j);
        let pe = spec_lagrange_combination(f, rs, i, st);
        let lhs = spec_fold_once(pe, r);
        let rhs = spec_lagrange_combination(f, rs, j, h);
        let y = F::spec_add(one, r);
        lemma_pow2_unfold(j);
        lemma_lagrange_basis_len(rs, i);
        lemma_lagrange_basis_len(rs, j);
        assert forall|t: int| 0 <= t < h implies lhs[t] == rhs[t] by {
            let n = pow2(i);
            let a = Seq::new(n, |m: int| F::spec_mul(lp[m], f[m * st + t]));
            let b = Seq::new(n, |m: int| F::spec_mul(lp[m], f[m * st + (t + h)]));
            let ya = Seq::new(n, |m: int| F::spec_mul(y, a[m]));
            let rb = Seq::new(n, |m: int| F::spec_mul(r, b[m]));
            lemma_sum_scale(y, a);
            lemma_sum_scale(r, b);
            assert(Seq::new(a.len(), |m: int| F::spec_mul(y, a[m])) =~= ya);
            assert(Seq::new(b.len(), |m: int| F::spec_mul(r, b[m])) =~= rb);
            lemma_sum_pointwise_add(ya, rb);
            let g = |m: int| F::spec_mul(ln[m], f[m * h + t]);
            lemma_sum_pairs(g, n);
            assert(Seq::new(pow2(j), |m: int| F::spec_mul(ln[m], f[m * h + t])) =~= Seq::new(2 * n, g));
            assert forall|m: int| 0 <= m < n implies #[trigger] F::spec_add(ya[m], rb[m]) == F::spec_add(
                g(2 * m),
                g(2 * m + 1),
            ) by {
                assert((2 * m) * h == m * st) by (nonlinear_arith)
                    requires
                        st == 2 * h,
                ;
                assert((2 * m + 1) * h == m * st + h) by (nonlinear_arith)
                    requires
                        st == 2 * h,
                ;
                assert(ln[2 * m] == F::spec_mul(lp[m], y));
                assert(ln[2 * m + 1] == F::spec_mul(lp[m], r));
                F::lemma_mul_assoc(lp[m], y, f[m * st + t]);
                F::lemma_mul_comm(lp[m], y);
                F::lemma_mul_assoc(y, lp[m], f[m * st + t]);
                F::lemma_mul_assoc(lp[m], r, f[m * st + (t + h)]);
                F::lemma_mul_comm(lp[m], r);
                F::lemma_mul_assoc(r, lp[m], f[m * st + (t + h)]);
                assert(m * st + (t + h) == m * st + h + t);
            }
            assert(Seq::new(ya.len(), |m: int| F::spec_add(ya[m], rb[m])) =~= Seq::new(
                n,
                |m: int| F::spec_add(g(2 * m), g(2 * m + 1)),
            ));
        }
        assert(lhs =~= rhs);
    }
}

/// Evaluating a multilinear polynomial by fixing all its variables is the
/// inner product of its values with the Lagrange basis at the point.
pub proof fn lemma_partial_eval_is_lagrange<F: BinaryField>(f: Seq<F>, rs: Seq<F>, k: nat)
    requires
        f.len() == pow2(k),
        rs.len() == k,
        k >= 1,
    ensures
        spec_partial_eval(f, rs)[0] == spec_inner(f, spec_lagrange_basis(rs, k)),
{
    lemma_partial_eval_lagrange_prefix(f, rs, k, k);
    assert(rs.subrange(0, k as int) =~= rs);
    lemma2_to64();
    lemma_lagrange_basis_len(rs, k);
    let l = spec_lagrange_basis(rs, k);
    let a = Seq::new(pow2(k), |m: int| F::spec_mul(l[m], f[m * 1 + 0]));
    let b = Seq::new(pow2(k), |m: int| F::spec_mul(f[m], l[m]));
    assert forall|m: int| 0 <= m < pow2(k) implies a[m] == b[m] by {
        F::lemma_mul_comm(l[m], f[m]);
    }
    assert(a =~= b);
}

} // verus!
