//! The basis polynomial and claimed sum that a batch of opened rows induces
//! for the next sumcheck.
use crate::binary_fft::{evaluate_scaled_basis_inplace, log2, pow2_usize, spec_basis, spec_sks_at_x_seq};
use crate::binary_field::BinaryField;
use crate::multilinear_poly::{inner_product, spec_inner};
use crate::utils::{evaluate_lagrange_basis, spec_lagrange_basis};
use vstd::arithmetic::power2::*;
use vstd::prelude::*;

verus! {

/// `alpha^i`, as the product `((1 * alpha) * alpha) ...`.
pub open spec fn spec_alpha_pow<F: BinaryField>(alpha: F, i: nat) -> F
    decreases i,
{
    if i == 0 {
        F::spec_one()
    } else {
        F::spec_mul(spec_alpha_pow(alpha, (i - 1) as nat), alpha)
    }
}

/// The powers `alpha^0 .. alpha^(n-1)` (just `[1]` when `n` is 0).
pub fn precompute_alpha_powers<F: BinaryField>(alpha: F, n: usize) -> (r: Vec<F>)
    ensures
        r@.len() == if n == 0 { 1 } else { n as int },
        forall|i: int| 0 <= i < r@.len() ==> #[trigger] r@[i] == spec_alpha_pow(alpha, i as nat),
{
    let mut alpha_pows: Vec<F> = Vec::with_capacity(n);
    alpha_pows.push(F::one());
    let mut i: usize = 1;
    while i < n
        invariant
            1 <= i,
            i <= n || (n == 0 && i == 1),
            alpha_pows@.len() == i,
            forall|k: int| 0 <= k < i ==> #[trigger] alpha_pows@[k] == spec_alpha_pow(alpha, k as nat),
        decreases n - i,
    {
        let prev = alpha_pows[i - 1];
        alpha_pows.push(prev.mul(alpha));
        i = i + 1;
    }
    alpha_pows
}

/// The claimed sum after the first `k` rows: the left-to-right sum of
/// `<rows[i], gr> alpha^i`.
pub open spec fn spec_enforced_sum<F: BinaryField>(rows: Seq<Seq<F>>, gr: Seq<F>, alpha: F, k: nat) -> F
    decreases k,
{
    if k == 0 {
        F::spec_zero()
    } else {
        F::spec_add(
            spec_enforced_sum(rows, gr, alpha, (k - 1) as nat),
            F::spec_mul(spec_inner(rows[k - 1], gr), spec_alpha_pow(alpha, (k - 1) as nat)),
        )
    }
}

/// The basis polynomial (`2^n` values) after the first `k` rows: the
/// left-to-right sum over rows `i` of the novel basis at the point
/// `queries[i]`, scaled by `alpha^i`.
pub open spec fn spec_induced_basis<F: BinaryField>(
    n: nat,
    sks_vks: Seq<F>,
    queries: Seq<usize>,
    alpha: F,
    k: nat,
) -> Seq<F>
    decreases k,
{
    if k == 0 {
        Seq::new(pow2(n), |j: int| F::spec_zero())
    } else {
        let prev = spec_induced_basis(n, sks_vks, queries, alpha, (k - 1) as nat);
        let sks = spec_sks_at_x_seq(sks_vks, F::spec_from_nat(queries[k - 1] as nat), n);
        Seq::new(
            pow2(n),
            |j: int| F::spec_add(prev[j], spec_basis(sks, spec_alpha_pow(alpha, (k - 1) as nat), j as nat)),
        )
    }
}

/// The rows as sequences.
pub open spec fn rows_view<F>(rows: Seq<Vec<F>>) -> Seq<Seq<F>> {
    Seq::new(rows.len(), |i: int| rows[i]@)
}

/// The basis polynomial and the claimed sum induced by the opened rows at
/// the sorted queries, with `gr` the Lagrange basis at `v_challenges`: each
/// row `i` contributes `<row, gr> alpha^i` to the sum and the scaled novel
/// basis at its query to the polynomial.
pub fn induce_sumcheck_poly<F: BinaryField>(
    n: usize,
    sks_vks: &Vec<F>,
    opened_rows: &Vec<Vec<F>>,
    v_challenges: &Vec<F>,
    sorted_queries: &Vec<usize>,
    alpha: F,
) -> (r: (Vec<F>, F))
    requires
        1 <= sks_vks@.len(),
        n <= sks_vks@.len(),
        pow2(n as nat) <= usize::MAX,
        1 <= v_challenges@.len(),
        pow2(v_challenges@.len() as nat) <= usize::MAX,
        forall|i: int|
            0 <= i < opened_rows@.len() ==> (#[trigger] opened_rows@[i])@.len() == pow2(
                v_challenges@.len() as nat,
            ),
        opened_rows@.len() == sorted_queries@.len(),
        forall|i: int| 0 <= i < sorted_queries@.len() ==> #[trigger] sorted_queries@[i] < F::spec_order(),
    ensures
        r.0@ == spec_induced_basis(n as nat, sks_vks@, sorted_queries@, alpha, opened_rows@.len() as nat),
        r.1 == spec_enforced_sum(
            rows_view(opened_rows@),
            spec_lagrange_basis(v_challenges@, v_challenges@.len() as nat),
            alpha,
            opened_rows@.len() as nat,
        ),
{
    proof {
        lemma_pow2_pos(n as nat);
    }
    let gr = evaluate_lagrange_basis(v_challenges);
    let ghost grs = gr@;
    let ghost rows = rows_view(opened_rows@);
    let n_rows = opened_rows.len();
    let alpha_pows = precompute_alpha_powers(alpha, n_rows);
    let mut enforced_sum = F::zero();
    let size = pow2_usize(n);
    let mut basis_poly: Vec<F> = Vec::with_capacity(size);
    let mut local_basis: Vec<F> = Vec::with_capacity(size);
    let mut k: usize = 0;
    while k < size
        invariant
            k <= size,
            basis_poly@.len() == k,
            local_basis@.len() == k,
            forall|j: int| 0 <= j < k ==> #[trigger] basis_poly@[j] == F::spec_zero(),
        decreases size - k,
    {
        basis_poly.push(F::zero());
        local_basis.push(F::zero());
        k = k + 1;
    }
    let mut local_sks_x: Vec<F> = Vec::with_capacity(sks_vks.len());
    k = 0;
    while k < sks_vks.len()
        invariant
            k <= sks_vks.len(),
            local_sks_x@.len() == k,
        decreases sks_vks.len() - k,
    {
        local_sks_x.push(F::zero());
        k = k + 1;
    }
    proof {
        crate::binary_fft::lemma_pow2_is_pow2(n as nat);
        assert(basis_poly@ =~= spec_induced_basis(n as nat, sks_vks@, sorted_queries@, alpha, 0));
    }
    let mut i: usize = 0;
    while i < n_rows
        invariant
            i <= n_rows,
            n_rows == opened_rows@.len(),
            n_rows == sorted_queries@.len(),
            rows == rows_view(opened_rows@),
            grs == gr@,
            size == pow2(n as nat),
            size >= 1,
            log2(size as nat) == n,
            n <= sks_vks@.len(),
            1 <= sks_vks@.len(),
            alpha_pows@.len() == if n_rows == 0 { 1 } else { n_rows as int },
            forall|t: int| 0 <= t < alpha_pows@.len() ==> #[trigger] alpha_pows@[t] == spec_alpha_pow(alpha, t as nat),
            forall|t: int| 0 <= t < sorted_queries@.len() ==> #[trigger] sorted_queries@[t] < F::spec_order(),
            basis_poly@.len() == size,
            local_basis@.len() == size,
            local_sks_x@.len() == sks_vks@.len(),
            basis_poly@ == spec_induced_basis(n as nat, sks_vks@, sorted_queries@, alpha, i as nat),
            enforced_sum == spec_enforced_sum(rows, grs, alpha, i as nat),
        decreases n_rows - i,
    {
        let row = &opened_rows[i];
        let query = sorted_queries[i];
        let dot = inner_product(row, &gr);
        let alpha_pow = alpha_pows[i];
        proof {
            assert(rows[i as int] == row@);
        }
        enforced_sum = enforced_sum.add(dot.mul(alpha_pow));
        let qf = F::from_usize(query);
        evaluate_scaled_basis_inplace(&mut local_sks_x, &mut local_basis, sks_vks, qf, alpha_pow);
        let ghost prev = basis_poly@;
        let ghost target = spec_induced_basis(n as nat, sks_vks@, sorted_queries@, alpha, (i + 1) as nat);
        let mut j: usize = 0;
        while j < size
            invariant
                j <= size,
                size == pow2(n as nat),
                basis_poly@.len() == size,
                local_basis@.len() == size,
                target.len() == size,
                forall|t: int| 0 <= t < size ==> #[trigger] target[t] == F::spec_add(prev[t], local_basis@[t]),
                forall|t: int| 0 <= t < j ==> #[trigger] basis_poly@[t] == target[t],
                forall|t: int| j <= t < size ==> #[trigger] basis_poly@[t] == prev[t],
            decreases size - j,
        {
            let b = basis_poly[j];
            let l = local_basis[j];
            basis_poly.set(j, b.add(l));
            j = j + 1;
        }
        assert(basis_poly@ =~= target);
        i = i + 1;
    }
    (basis_poly, enforced_sum)
}

} // verus!
