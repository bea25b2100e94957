//! Ligero-style matrix commitments: the polynomial is laid out as columns,
//! each column is Reed-Solomon encoded, and the rows are committed to in a
//! Merkle tree.
use crate::binary_fft::{
    eval_sk_at_vks, evaluate_scaled_basis_inplace, ilog2, is_pow2, lemma_log2_bounds, lemma_log2_fits,
    lemma_pow2_is_pow2, log2, pow2_usize, spec_basis, spec_basis_seq, spec_sks_at_x_seq,
    spec_subspace_poly, spec_twiddles, spec_v,
};
use crate::binary_field::BinaryField;
use crate::data_structures::RecursiveLigeroWitness;
use crate::merkle_tree::{build_merkle_tree, is_merkle_tree, views};
use crate::multilinear_poly::{inner_product, spec_eval_013_product, spec_inner, spec_sum};
use crate::sumcheck::{lemma_sum_pointwise_add, lemma_sum_scale};
use crate::sumcheck_polys::{spec_alpha_pow, spec_enforced_sum, spec_induced_basis};
use crate::reed_solomon::{spec_pad, spec_pis, spec_scale_message, ReedSolomonEncoding};
use crate::utils::{evaluate_lagrange_basis, spec_lagrange_basis};
use crate::binary_fft::spec_fft;
use vstd::arithmetic::power2::*;
use vstd::prelude::*;

verus! {

/// Column `j` of a matrix stored column after column, `mt` symbols each.
pub open spec fn column<F>(flat: Seq<F>, mt: nat, j: int) -> Seq<F> {
    flat.subrange(j * mt, j * mt + mt)
}

/// Row `r` of a matrix of `n` columns of `mt` symbols, stored column after
/// column.
pub open spec fn spec_row<F>(flat: Seq<F>, r: int, mt: nat, n: nat) -> Seq<F> {
    Seq::new(n, |j: int| flat[j * mt + r])
}

/// The bytes of the elements, one after another.
pub open spec fn elems_bytes<F: BinaryField>(s: Seq<F>) -> Seq<u8>
    decreases s.len(),
{
    if s.len() == 0 {
        seq![]
    } else {
        elems_bytes(s.drop_last()) + s.last().spec_to_bytes()
    }
}

/// The Merkle leaves of a committed matrix: the bytes of each of its `mt`
/// rows.
pub open spec fn matrix_leaves<F: BinaryField>(flat: Seq<F>, mt: nat, n: nat) -> Seq<Seq<u8>> {
    Seq::new(mt, |r: int| elems_bytes(spec_row(flat, r, mt, n)))
}

/// The non-systematic Reed-Solomon codeword of the (padded) column `s`.
pub open spec fn rs_encoded<F: BinaryField>(rs: ReedSolomonEncoding<F>, s: Seq<F>) -> Seq<F> {
    spec_fft(
        spec_scale_message(s, spec_pis::<F>(rs.spec_log_message_length())),
        spec_twiddles(rs.spec_log_block_length(), F::spec_zero()),
        1,
    )
}

proof fn lemma_mul_mono(a: int, b: int, c: int)
    requires
        0 <= a <= b,
        0 <= c,
    ensures
        a * c <= b * c,
{
    assert(a * c <= b * c) by (nonlinear_arith)
        requires
            0 <= a <= b,
            0 <= c,
    ;
}

proof fn lemma_mul_succ(a: int, c: int)
    ensures
        (a + 1) * c == a * c + c,
{
    assert((a + 1) * c == a * c + c) by (nonlinear_arith);
}

/// The bytes of the elements of `row`, one after another.
pub(crate) fn elems_to_bytes<F: BinaryField>(row: &[F]) -> (r: Vec<u8>)
    ensures
        r@ == elems_bytes(row@),
{
    let mut out: Vec<u8> = Vec::new();
    let mut i: usize = 0;
    while i < row.len()
        invariant
            i <= row@.len(),
            out@ == elems_bytes(row@.subrange(0, i as int)),
        decreases row@.len() - i,
    {
        let mut b = row[i].to_bytes();
        proof {
            assert(row@.subrange(0, i + 1).drop_last() =~= row@.subrange(0, i as int));
        }
        out.append(&mut b);
        i = i + 1;
    }
    assert(row@.subrange(0, i as int) =~= row@);
    out
}

/// The polynomial laid out as `n` columns of `m` symbols, each padded with
/// zeros to `m * inv_rate` symbols.
fn poly2flatmat<F: BinaryField>(poly: &[F], m: usize, n: usize, inv_rate: usize) -> (r: Vec<F>)
    requires
        n * m <= poly@.len(),
        m * inv_rate <= usize::MAX,
        n * (m * inv_rate) <= usize::MAX,
        inv_rate >= 1,
    ensures
        r@.len() == n * (m * inv_rate),
        forall|j: int|
            0 <= j < n ==> #[trigger] column(r@, (m * inv_rate) as nat, j) == spec_pad(
                poly@.subrange(j * m, j * m + m),
                (m * inv_rate) as nat,
            ),
{
    proof {
        lemma_mul_mono(1, inv_rate as int, m as int);
        assert(inv_rate * m == m * inv_rate) by (nonlinear_arith);
    }
    let m_target = m * inv_rate;
    let ghost mt = m_target as nat;
    let mut flat_mat: Vec<F> = Vec::with_capacity(n * m_target);
    let mut j: usize = 0;
    proof {
        assert(0 * m_target == 0);
        assert(poly@.len() == poly.len());
    }
    while j < n
        invariant
            j <= n,
            m_target == m * inv_rate,
            mt == m_target,
            m <= m_target,
            n * m_target <= usize::MAX,
            n * m <= poly@.len(),
            poly@.len() <= usize::MAX,
            flat_mat@.len() == j * m_target,
            forall|jj: int| 0 <= jj < j ==> #[trigger] column(flat_mat@, mt, jj) == spec_pad(
                poly@.subrange(jj * m, jj * m + m),
                mt,
            ),
        decreases n - j,
    {
        proof {
            lemma_mul_mono(j as int + 1, n as int, m as int);
            lemma_mul_mono(j as int + 1, n as int, m_target as int);
            lemma_mul_succ(j as int, m as int);
            lemma_mul_succ(j as int, m_target as int);
        }
        let ghost before = flat_mat@;
        let pbase = j * m;
        let ghost pad = spec_pad(poly@.subrange(pbase as int, pbase + m), mt);
        let mut i: usize = 0;
        while i < m_target
            invariant
                i <= m_target,
                m <= m_target,
                mt == m_target,
                pbase + m <= poly@.len(),
                poly@.len() <= usize::MAX,
                pad == spec_pad(poly@.subrange(pbase as int, pbase + m), mt),
                flat_mat@ == before + pad.subrange(0, i as int),
            decreases m_target - i,
        {
            if i < m {
                flat_mat.push(poly[pbase + i]);
            } else {
                flat_mat.push(F::zero());
            }
            proof {
                assert(flat_mat@ =~= before + pad.subrange(0, i + 1));
            }
            i = i + 1;
        }
        proof {
            assert(pad.subrange(0, m_target as int) =~= pad);
            assert(column(flat_mat@, mt, j as int) =~= pad);
            assert forall|jj: int| 0 <= jj < j implies #[trigger] column(flat_mat@, mt, jj) == spec_pad(
                poly@.subrange(jj * m, jj * m + m),
                mt,
            ) by {
                lemma_mul_mono(jj + 1, j as int, m_target as int);
                lemma_mul_succ(jj, m_target as int);
                assert(column(flat_mat@, mt, jj) =~= column(before, mt, jj));
            }
        }
        j = j + 1;
    }
    flat_mat
}

/// Encodes each of the `n` columns of `mt` symbols in place.
fn encode_cols<F: BinaryField>(poly_flat_mat: &mut Vec<F>, m_target: usize, n: usize, rs: &ReedSolomonEncoding<F>)
    requires
        m_target == pow2(rs.spec_log_block_length()),
        n * m_target <= old(poly_flat_mat)@.len(),
    ensures
        final(poly_flat_mat)@.len() == old(poly_flat_mat)@.len(),
        forall|j: int|
            0 <= j < n ==> #[trigger] column(final(poly_flat_mat)@, m_target as nat, j) == rs_encoded(
                *rs,
                column(old(poly_flat_mat)@, m_target as nat, j),
            ),
        final(poly_flat_mat)@.subrange((n * m_target) as int, old(poly_flat_mat)@.len() as int)
            == old(poly_flat_mat)@.subrange((n * m_target) as int, old(poly_flat_mat)@.len() as int),
{
    let ghost mt = m_target as nat;
    let ghost orig = poly_flat_mat@;
    let mut j: usize = 0;
    proof {
        assert(0 * m_target == 0);
        assert(poly_flat_mat@.len() == poly_flat_mat.len());
        assert(poly_flat_mat@.subrange(0, orig.len() as int) =~= orig.subrange(0, orig.len() as int));
    }
    while j < n
        invariant
            j <= n,
            mt == m_target,
            m_target == pow2(rs.spec_log_block_length()),
            n * m_target <= orig.len(),
            orig.len() <= usize::MAX,
            poly_flat_mat@.len() == orig.len(),
            forall|jj: int| 0 <= jj < j ==> #[trigger] column(poly_flat_mat@, mt, jj) == rs_encoded(
                *rs,
                column(orig, mt, jj),
            ),
            poly_flat_mat@.subrange(j * m_target, orig.len() as int) == orig.subrange(
                j * m_target,
                orig.len() as int,
            ),
        decreases n - j,
    {
        proof {
            lemma_mul_mono(j as int + 1, n as int, m_target as int);
            lemma_mul_succ(j as int, m_target as int);
        }
        let ghost before = poly_flat_mat@;
        let start = j * m_target;
        rs.encode_non_systematic_at(poly_flat_mat, start);
        proof {
            assert(before.subrange(start as int, start + m_target) =~= column(orig, mt, j as int)) by {
                assert forall|t: int| 0 <= t < m_target implies #[trigger] before.subrange(
                    start as int,
                    start + m_target,
                )[t] == column(orig, mt, j as int)[t] by {
                    assert(before.subrange(start as int, orig.len() as int)[t] == orig.subrange(
                        start as int,
                        orig.len() as int,
                    )[t]);
                }
            }
            let enc = rs_encoded(*rs, column(orig, mt, j as int));
            crate::binary_fft::lemma_fft_len(
                spec_scale_message(column(orig, mt, j as int), spec_pis::<F>(rs.spec_log_message_length())),
                spec_twiddles(rs.spec_log_block_length(), F::spec_zero()),
                1,
            );
            assert(column(poly_flat_mat@, mt, j as int) =~= enc);
            assert forall|jj: int| 0 <= jj < j + 1 implies #[trigger] column(poly_flat_mat@, mt, jj) == rs_encoded(
                *rs,
                column(orig, mt, jj),
            ) by {
                if jj < j {
                    lemma_mul_mono(jj + 1, j as int, m_target as int);
                    lemma_mul_succ(jj, m_target as int);
                    assert(column(poly_flat_mat@, mt, jj) =~= column(before, mt, jj));
                }
            }
            assert(poly_flat_mat@.subrange((j + 1) * m_target, orig.len() as int) =~= orig.subrange(
                (j + 1) * m_target,
                orig.len() as int,
            )) by {
                assert forall|t: int| 0 <= t < orig.len() - (j + 1) * m_target implies #[trigger] poly_flat_mat@.subrange(
                    (j + 1) * m_target,
                    orig.len() as int,
                )[t] == orig.subrange((j + 1) * m_target, orig.len() as int)[t] by {
                    assert(before.subrange(start as int, orig.len() as int)[t + m_target] == orig.subrange(
                        start as int,
                        orig.len() as int,
                    )[t + m_target]);
                }
            }
        }
        j = j + 1;
    }
}

/// Row `row_idx` of a matrix of `n` columns of `m_target` symbols.
pub fn extract_row<F: BinaryField>(flat_mat: &[F], row_idx: usize, m_target: usize, n: usize) -> (r: Vec<F>)
    requires
        n == 0 || (n - 1) * m_target + row_idx < flat_mat@.len(),
    ensures
        r@ == spec_row(flat_mat@, row_idx as int, m_target as nat, n as nat),
{
    let mut row: Vec<F> = Vec::with_capacity(n);
    let mut j: usize = 0;
    assert(flat_mat@.len() == flat_mat.len());
    while j < n
        invariant
            j <= n,
            flat_mat@.len() <= usize::MAX,
            n == 0 || (n - 1) * m_target + row_idx < flat_mat@.len(),
            row@ == spec_row(flat_mat@, row_idx as int, m_target as nat, j as nat),
        decreases n - j,
    {
        proof {
            lemma_mul_mono(j as int, n - 1, m_target as int);
        }
        row.push(flat_mat[j * m_target + row_idx]);
        proof {
            assert(row@ =~= spec_row(flat_mat@, row_idx as int, m_target as nat, (j + 1) as nat));
        }
        j = j + 1;
    }
    row
}

/// The bytes of each of the `m_target` rows.
fn extract_leaves<F: BinaryField>(flat_mat: &[F], m_target: usize, n: usize) -> (r: Vec<Vec<u8>>)
    requires
        n * m_target <= flat_mat@.len(),
    ensures
        views(r@) == matrix_leaves(flat_mat@, m_target as nat, n as nat),
{
    let mut leaves: Vec<Vec<u8>> = Vec::with_capacity(m_target);
    let mut row_idx: usize = 0;
    while row_idx < m_target
        invariant
            row_idx <= m_target,
            n * m_target <= flat_mat@.len(),
            views(leaves@) == matrix_leaves(flat_mat@, m_target as nat, n as nat).subrange(0, row_idx as int),
        decreases m_target - row_idx,
    {
        proof {
            if n > 0 {
                lemma_mul_succ(n - 1, m_target as int);
            }
        }
        let row = extract_row(flat_mat, row_idx, m_target, n);
        let bytes = elems_to_bytes(row.as_slice());
        let ghost before = views(leaves@);
        leaves.push(bytes);
        proof {
            assert(views(leaves@) =~= before.push(bytes@));
            assert(views(leaves@) =~= matrix_leaves(flat_mat@, m_target as nat, n as nat).subrange(
                0,
                row_idx + 1,
            ));
        }
        row_idx = row_idx + 1;
    }
    assert(views(leaves@) =~= matrix_leaves(flat_mat@, m_target as nat, n as nat));
    leaves
}

/// Commits to `poly` as a matrix of `n` columns of `m` symbols: each column
/// is padded to `4 m` symbols and encoded with `rs` (whose blocks are `4 m`
/// long), and the `4 m` rows are committed to in a Merkle tree.
pub fn ligero_commit<F: BinaryField>(poly: &[F], m: usize, n: usize, rs: &ReedSolomonEncoding<F>) -> (r:
    RecursiveLigeroWitness<F>)
    requires
        n * m <= poly@.len(),
        4 * m == pow2(rs.spec_log_block_length()),
        4 * m <= usize::MAX / 64,
        n * (4 * m) <= usize::MAX,
    ensures
        r.num_rows == 4 * m,
        r.num_cols == n,
        r.flat_mat@.len() == n * (4 * m),
        forall|j: int|
            0 <= j < n ==> #[trigger] column(r.flat_mat@, (4 * m) as nat, j) == rs_encoded(
                *rs,
                spec_pad(poly@.subrange(j * m, j * m + m), (4 * m) as nat),
            ),
        is_merkle_tree(views(r.tree@), matrix_leaves(r.flat_mat@, (4 * m) as nat, n as nat)),
{
    let inv_rate: usize = 4;
    let mut poly_flat_mat = poly2flatmat(poly, m, n, inv_rate);
    let m_target = m * inv_rate;
    let ghost laid_out = poly_flat_mat@;
    encode_cols(&mut poly_flat_mat, m_target, n, rs);
    let leaves = extract_leaves(poly_flat_mat.as_slice(), m_target, n);
    proof {
        lemma_pow2_is_pow2(rs.spec_log_block_length());
        assert(views(leaves@).len() == leaves@.len());
    }
    let tree = build_merkle_tree(leaves);
    RecursiveLigeroWitness { flat_mat: poly_flat_mat, tree, num_rows: m_target, num_cols: n }
}

/// The values `s_i(v_i)` for `i <= n`.
pub open spec fn spec_sks_vks<F: BinaryField>(n: nat) -> Seq<F> {
    Seq::new(n + 1, |i: int| spec_subspace_poly(i as nat, spec_v::<F>(i as nat)))
}

/// The check of one opened row against the final polynomial `yr`, whose
/// `2^n` values are novel-basis coefficients: the row combined with the
/// Lagrange basis `gr` equals `yr` evaluated at the query point.
pub open spec fn row_check<F: BinaryField>(row: Seq<F>, gr: Seq<F>, yr: Seq<F>, q: usize, n: nat) -> bool {
    spec_inner(row, gr) == spec_inner(
        yr,
        spec_basis_seq(spec_sks_at_x_seq(spec_sks_vks::<F>(n), F::spec_from_nat(q as nat), n), F::spec_one(), pow2(n)),
    )
}

/// The novel-basis value scaled by `a` is the unscaled value times `a`.
pub proof fn lemma_basis_scaled<F: BinaryField>(sks: Seq<F>, a: F, m: nat)
    ensures
        spec_basis(sks, a, m) == F::spec_mul(spec_basis(sks, F::spec_one(), m), a),
    decreases m,
{
    if m == 0 {
        F::lemma_mul_comm(F::spec_one(), a);
        F::lemma_mul_one(a);
    } else {
        let b = log2(m);
        lemma_log2_bounds(m);
        lemma_pow2_pos(b);
        let m2 = (m - pow2(b)) as nat;
        lemma_basis_scaled(sks, a, m2);
        F::lemma_mul_assoc(sks[b as int], spec_basis(sks, F::spec_one(), m2), a);
    }
}

/// The inner product with all zeros is zero.
proof fn lemma_inner_zeros<F: BinaryField>(f: Seq<F>, len: nat)
    requires
        f.len() == len,
    ensures
        spec_inner(f, Seq::new(len, |j: int| F::spec_zero())) == F::spec_zero(),
{
    let z = Seq::new(len, |j: int| F::spec_zero());
    let p = Seq::new(len, |i: int| F::spec_mul(f[i], z[i]));
    assert forall|i: int| 0 <= i < len implies p[i] == F::spec_mul(F::spec_zero(), F::spec_zero()) by {
        F::lemma_mul_zero(f[i]);
        F::lemma_mul_zero(F::spec_zero());
    }
    lemma_sum_scale(F::spec_zero(), Seq::new(len, |i: int| F::spec_zero()));
    F::lemma_mul_zero(spec_sum(Seq::new(len, |i: int| F::spec_zero())));
    assert(p =~= Seq::new(len, |i: int| F::spec_mul(F::spec_zero(), Seq::new(len, |i: int| F::spec_zero())[i])));
}

/// The claimed sum that the opened rows enforce is the inner product of `f`
/// with the basis polynomial they induce, when every row passes the row
/// check against `f` at its query.
pub proof fn lemma_enforced_sum_is_inner<F: BinaryField>(
    rows: Seq<Seq<F>>,
    gr: Seq<F>,
    f: Seq<F>,
    n: nat,
    queries: Seq<usize>,
    alpha: F,
    k: nat,
)
    requires
        f.len() == pow2(n),
        k <= rows.len(),
        k <= queries.len(),
        forall|i: int| 0 <= i < k ==> #[trigger] row_check(rows[i], gr, f, queries[i], n),
    ensures
        spec_inner(f, spec_induced_basis(n, spec_sks_vks::<F>(n), queries, alpha, k)) == spec_enforced_sum(
            rows,
            gr,
            alpha,
            k,
        ),
    decreases k,
{
    let sv = spec_sks_vks::<F>(n);
    if k == 0 {
        lemma_inner_zeros(f, pow2(n));
        assert(spec_induced_basis(n, sv, queries, alpha, 0) =~= Seq::new(pow2(n), |j: int| F::spec_zero()));
    } else {
        let k1 = (k - 1) as nat;
        lemma_enforced_sum_is_inner(rows, gr, f, n, queries, alpha, k1);
        let pr = spec_induced_basis(n, sv, queries, alpha, k1);
        let sks = spec_sks_at_x_seq(sv, F::spec_from_nat(queries[k1 as int] as nat), n);
        let c = spec_alpha_pow(alpha, k1);
        let bq = spec_basis_seq(sks, F::spec_one(), pow2(n));
        let cur = spec_induced_basis(n, sv, queries, alpha, k);
        assert(row_check(rows[k1 as int], gr, f, queries[k1 as int], n));
        let x = Seq::new(pow2(n), |i: int| F::spec_mul(f[i], pr[i]));
        let y = Seq::new(pow2(n), |i: int| F::spec_mul(c, F::spec_mul(f[i], bq[i])));
        let w = Seq::new(pow2(n), |i: int| F::spec_mul(f[i], cur[i]));
        assert forall|i: int| 0 <= i < pow2(n) implies w[i] == F::spec_add(x[i], y[i]) by {
            lemma_basis_scaled(sks, c, i as nat);
            F::lemma_mul_distrib(f[i], pr[i], F::spec_mul(bq[i], c));
            F::lemma_mul_assoc(f[i], bq[i], c);
            F::lemma_mul_comm(F::spec_mul(f[i], bq[i]), c);
        }
        assert(w =~= Seq::new(x.len(), |i: int| F::spec_add(x[i], y[i])));
        lemma_sum_pointwise_add(x, y);
        lemma_sum_scale(c, Seq::new(pow2(n), |i: int| F::spec_mul(f[i], bq[i])));
        assert(spec_inner(f, bq) == spec_sum(Seq::new(pow2(n), |i: int| F::spec_mul(f[i], bq[i]))));
        F::lemma_mul_comm(c, spec_inner(f, bq));
        assert(cur.len() == pow2(n));
        assert(pr.len() == pow2(n));
        assert(Seq::new(pow2(n), |i: int| F::spec_mul(f[i], cur[i])) =~= w);
        assert(spec_inner(f, cur) == spec_sum(w));
        assert(spec_inner(f, pr) == spec_sum(x));
        assert(y =~= Seq::new(pow2(n), |i: int| F::spec_mul(c, Seq::new(pow2(n), |i: int| F::spec_mul(f[i], bq[i]))[i])));
        assert(spec_sum(y) == F::spec_mul(c, spec_inner(f, bq)));
    }
}

/// The claimed-sum test that the prover makes when it introduces the basis
/// polynomial induced by opened rows passes whenever those rows pass the
/// row check against the current polynomial `f`: its first round values add
/// up to the sum the rows enforce.
pub proof fn lemma_claimed_sum_holds<F: BinaryField>(
    rows: Seq<Seq<F>>,
    gr: Seq<F>,
    f: Seq<F>,
    n: nat,
    queries: Seq<usize>,
    alpha: F,
    k: nat,
)
    requires
        f.len() == pow2(n),
        n >= 1,
        k <= rows.len(),
        k <= queries.len(),
        forall|i: int| 0 <= i < k ==> #[trigger] row_check(rows[i], gr, f, queries[i], n),
    ensures
        ({
            let b = spec_induced_basis(n, spec_sks_vks::<F>(n), queries, alpha, k);
            let e = spec_eval_013_product(f, b);
            F::spec_add(e.0, e.1) == spec_enforced_sum(rows, gr, alpha, k)
        }),
{
    let b = spec_induced_basis(n, spec_sks_vks::<F>(n), queries, alpha, k);
    lemma_enforced_sum_is_inner(rows, gr, f, n, queries, alpha, k);
    lemma_pow2_unfold(n);
    lemma_pow2_pos((n - 1) as nat);
    crate::ligerito::lemma_running_start(f, b);
}

/// Whether every opened row agrees with the final polynomial `yr` at its
/// query, with `challenges` the point the rows were folded at. A row that
/// fails makes the result false; this never panics, where a failed row
/// check is otherwise treated as fatal.
pub fn ligero_verify<F: BinaryField>(
    queries: &Vec<usize>,
    opened_rows: &Vec<Vec<F>>,
    yr: &Vec<F>,
    challenges: &Vec<F>,
) -> (r: bool)
    requires
        yr@.len() >= 1,
        pow2(log2(yr@.len() as nat)) < F::spec_order(),
        1 <= challenges@.len(),
        pow2(challenges@.len() as nat) <= usize::MAX,
        opened_rows@.len() <= queries@.len(),
        forall|i: int| 0 <= i < opened_rows@.len() ==> #[trigger] queries@[i] < F::spec_order(),
    ensures
        r == forall|i: int|
            0 <= i < opened_rows@.len() ==> #[trigger] row_check(
                opened_rows@[i]@,
                spec_lagrange_basis(challenges@, challenges@.len() as nat),
                yr@,
                queries@[i],
                log2(yr@.len() as nat),
            ),
{
    let gr = evaluate_lagrange_basis(challenges);
    let n = ilog2(yr.len());
    proof {
        lemma_log2_bounds(yr@.len() as nat);
        lemma_log2_fits(yr@.len() as nat);
        lemma_pow2_is_pow2(n as nat);
        F::lemma_order();
        lemma_pow2_pos(n as nat);
    }
    let size = pow2_usize(n);
    let sks_vks = eval_sk_at_vks::<F>(size);
    assert(sks_vks@ =~= spec_sks_vks::<F>(n as nat));
    let mut local_basis: Vec<F> = Vec::with_capacity(size);
    let mut k: usize = 0;
    while k < size
        invariant
            k <= size,
            local_basis@.len() == k,
        decreases size - k,
    {
        local_basis.push(F::zero());
        k = k + 1;
    }
    let mut local_sks_x: Vec<F> = Vec::with_capacity(sks_vks.len());
    k = 0;
    while k < sks_vks.len()
        invariant
            k <= sks_vks.len(),
            local_sks_x@.len() == k,
        decreases sks_vks.len() - k,
    {
        local_sks_x.push(F::zero());
        k = k + 1;
    }
    let ghost grs = gr@;
    let mut i: usize = 0;
    while i < opened_rows.len()
        invariant
            i <= opened_rows@.len(),
            opened_rows@.len() <= queries@.len(),
            forall|t: int| 0 <= t < opened_rows@.len() ==> #[trigger] queries@[t] < F::spec_order(),
            grs == gr@,
            grs == spec_lagrange_basis(challenges@, challenges@.len() as nat),
            n == log2(yr@.len() as nat),
            size == pow2(n as nat),
            size >= 1,
            log2(size as nat) == n,
            sks_vks@ == spec_sks_vks::<F>(n as nat),
            local_basis@.len() == size,
            local_sks_x@.len() == n + 1,
            forall|t: int| 0 <= t < i ==> #[trigger] row_check(opened_rows@[t]@, grs, yr@, queries@[t], n as nat),
        decreases opened_rows@.len() - i,
    {
        let row = &opened_rows[i];
        let query = queries[i];
        let dot = inner_product(row, &gr);
        let qf = F::from_usize(query);
        evaluate_scaled_basis_inplace(&mut local_sks_x, &mut local_basis, &sks_vks, qf, F::one());
        let e = inner_product(yr, &local_basis);
        proof {
            assert(local_basis@ =~= spec_basis_seq(
                spec_sks_at_x_seq(spec_sks_vks::<F>(n as nat), F::spec_from_nat(query as nat), n as nat),
                F::spec_one(),
                pow2(n as nat),
            ));
        }
        if !e.equals(&dot) {
            proof {
                assert(row@ == opened_rows@[i as int]@);
                assert(!row_check(opened_rows@[i as int]@, grs, yr@, queries@[i as int], n as nat));
            }
            return false;
        }
        i = i + 1;
    }
    true
}

} // verus!
