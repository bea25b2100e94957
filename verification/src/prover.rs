//! The Ligerito prover.
use crate::binary_fft::{eval_sk_at_vks, is_pow2, lemma_is_pow2_log2, lemma_pow2_is_pow2, log2, pow2_usize};
use crate::binary_field::BinaryField;
use crate::config::{commit_ok, ks_sum, prover_config_ok, vars_before_step, NUM_QUERIES};
use crate::data_structures::{
    VerifierConfig,
    FinalLigeroProof, FinalizedLigeritoProof, LigeritoProof, ProverConfig, RecursiveLigeroCommitment,
    RecursiveLigeroProof, RecursiveLigeroWitness, SumcheckTranscript,
};
use crate::emulated_fs::{after_squeezes, draw_sorted_queries, next_field, FS};
use crate::ligerito::{
    sum_seqs, all_num_vars, copy_transcript, lemma_running_fold, lemma_running_glue, lemma_running_start, polys_view, spec_eval_01x,
    spec_scaled, triple, SumcheckProverInstance,
};
use crate::ligero::{column, elems_to_bytes, extract_row, ligero_commit, matrix_leaves, rs_encoded, spec_row};
use crate::utils::spec_lagrange_basis;
use crate::ligerito_verifier::{
    agree_below, commitment_roots, final_draw, fs_absorb, fs_challenge, fs_draw, fs_squeeze, round_bytes, sks_seq,
    sorted_of, FsState, final_accepts, steps_accept_from, spec_ligerito_verify, eval_basis_partial_views, final_sumcheck_ok, basis_upto, basis_view, challenges_before, seps_upto, rows_of_len, step_accepts, step_query_state, vchallenges, beta_state, round_ok, round_poly, rounds_ok, running_before, vfolds, vstart, initial_accepts, initial_challenges, initial_query_state, fs_folds, fs_step_start, initial_draw, lemma_fs_folds_frame,
    lemma_fs_step_start_frame,
    lemma_step_draw_frame, opening_accepted, opening_at, rows_bytes, step_draw, step_entry, verifier_rows,
};
use crate::sumcheck::{spec_three, QuadraticEvals};
use crate::ligero::{elems_bytes, row_check, spec_sks_vks};
use crate::binary_fft::{spec_basis_seq, spec_sks_at_x_seq};
use crate::multilinear_poly::{spec_inner, spec_sum};
use crate::sumcheck::{lemma_sum_pointwise_add, lemma_sum_scale};
use crate::reed_solomon::spec_scale_message;
use crate::merkle_tree::{
    hash_pair, node, sha256, all_below, is_merkle_tree, lemma_merkle_tree_shape, lemma_prove_then_verify, opened_leaves, prove, spec_prove,
    spec_verify, strictly_increasing, views,
};
use crate::multilinear_poly::{lemma_partial_eval_len, spec_eval_013_product, spec_partial_eval, MultiLinearPoly};
use crate::reed_solomon::{spec_pad, ReedSolomonEncoding};
use crate::sumcheck_polys::{induce_sumcheck_poly, rows_view, spec_enforced_sum, spec_induced_basis};
use vstd::arithmetic::power2::*;
use vstd::bytes::spec_u32_to_le_bytes;
use vstd::prelude::*;
use vstd::slice::slice_to_vec;

verus! {

/// `root` is the commitment to `poly` as a matrix of `n` columns of `m`
/// symbols under the code `rs`: the Merkle root over the rows of the
/// matrix whose columns are the codewords of the zero-padded columns.
pub open spec fn is_commitment<F: BinaryField>(
    root: Seq<u8>,
    poly: Seq<F>,
    m: nat,
    n: nat,
    rs: ReedSolomonEncoding<F>,
) -> bool {
    exists|flat: Seq<F>, tree: Seq<Seq<u8>>|
        {
            &&& flat.len() == n * (4 * m)
            &&& forall|j: int|
                0 <= j < n ==> #[trigger] column(flat, 4 * m, j) == rs_encoded(
                    rs,
                    spec_pad(poly.subrange(j * m, j * m + m), 4 * m),
                )
            &&& is_merkle_tree(tree, matrix_leaves(flat, 4 * m, n))
            &&& tree.last() == root
        }
}

/// The matrix that commits to `poly` as `n` columns of `m` symbols under
/// the code `rs`: column `j` is the codeword of the zero-padded column `j`
/// of `poly`.
pub open spec fn commit_matrix<F: BinaryField>(poly: Seq<F>, m: nat, n: nat, rs: ReedSolomonEncoding<F>) -> Seq<F> {
    choose|flat: Seq<F>| is_commit_matrix(flat, poly, m, n, rs)
}

/// `flat` holds the codewords of the zero-padded columns of `poly`.
pub open spec fn is_commit_matrix<F: BinaryField>(flat: Seq<F>, poly: Seq<F>, m: nat, n: nat, rs: ReedSolomonEncoding<F>) -> bool {
    &&& flat.len() == n * (4 * m)
    &&& forall|j: int|
        0 <= j < n ==> #[trigger] column(flat, 4 * m, j) == rs_encoded(rs, spec_pad(poly.subrange(j * m, j * m + m), 4 * m))
}

/// The Merkle tree over the rows of the matrix that commits to `poly`.
pub open spec fn commit_tree<F: BinaryField>(poly: Seq<F>, m: nat, n: nat, rs: ReedSolomonEncoding<F>) -> Seq<Seq<u8>> {
    choose|tree: Seq<Seq<u8>>| #[trigger] is_merkle_tree(tree, matrix_leaves(commit_matrix(poly, m, n, rs), 4 * m, n))
}

/// The Merkle root of the rows of the matrix that commits to `poly`.
pub open spec fn commit_root<F: BinaryField>(poly: Seq<F>, m: nat, n: nat, rs: ReedSolomonEncoding<F>) -> Seq<u8> {
    commit_tree(poly, m, n, rs).last()
}

/// `rows` and the Merkle opening `mp` open the commitment to `poly` at the
/// drawn queries taken in increasing order: the rows of its matrix there,
/// and the sibling hashes of its tree.
pub open spec fn opens_commitment<F: BinaryField>(
    rows: Seq<Vec<F>>,
    mp: Seq<Vec<u8>>,
    poly: Seq<F>,
    m: nat,
    n: nat,
    rs: ReedSolomonEncoding<F>,
    drawn: Seq<usize>,
) -> bool {
    let qs = sorted_of(drawn);
    &&& rows_view(rows) == rows_at(commit_matrix(poly, m, n, rs), qs, 4 * m, n)
    &&& views(mp) == spec_prove(commit_tree(poly, m, n, rs), qs)
}

/// The columns determine the matrix.
proof fn lemma_commit_matrix_unique<F: BinaryField>(
    flat: Seq<F>,
    poly: Seq<F>,
    m: nat,
    n: nat,
    rs: ReedSolomonEncoding<F>,
)
    requires
        is_commit_matrix(flat, poly, m, n, rs),
        m >= 1,
    ensures
        commit_matrix(poly, m, n, rs) == flat,
{
    let c = commit_matrix(poly, m, n, rs);
    assert(is_commit_matrix(c, poly, m, n, rs));
    let d = 4 * m;
    assert forall|x: int| 0 <= x < flat.len() implies c[x] == flat[x] by {
        let j = x / (d as int);
        let o = x % (d as int);
        assert(x == j * d + o && 0 <= o < d) by (nonlinear_arith)
            requires
                d >= 1,
                j == x / (d as int),
                o == x % (d as int),
                x >= 0,
        ;
        assert(0 <= j < n) by (nonlinear_arith)
            requires
                x == j * d + o,
                0 <= o < d,
                0 <= x < n * d,
        ;
        assert(j * d + d <= n * d) by (nonlinear_arith)
            requires
                0 <= j < n,
                d >= 1,
        ;
        assert(column(c, d, j)[o] == c[j * d + o]);
        assert(column(c, d, j)[o] == c[x]);
        assert(column(flat, d, j)[o] == flat[x]);
    }
    assert(c =~= flat);
}

/// A layer of `m` nodes is determined by its nodes.
proof fn lemma_layer_from_nodes(a: Seq<u8>, b: Seq<u8>, m: nat)
    requires
        a.len() == 32 * m,
        b.len() == 32 * m,
        forall|i: int| 0 <= i < m ==> #[trigger] node(a, i) == node(b, i),
    ensures
        a == b,
{
    assert forall|x: int| 0 <= x < a.len() implies a[x] == b[x] by {
        let i = x / 32;
        assert(node(a, i) == node(b, i));
        assert(node(a, i)[x - 32 * i] == a[x]);
        assert(node(b, i)[x - 32 * i] == b[x]);
    }
    assert(a =~= b);
}

/// The leaves determine the Merkle tree.
proof fn lemma_merkle_tree_unique(t1: Seq<Seq<u8>>, t2: Seq<Seq<u8>>, leaves: Seq<Seq<u8>>)
    requires
        is_merkle_tree(t1, leaves),
        is_merkle_tree(t2, leaves),
    ensures
        t1 == t2,
{
    let d = log2(leaves.len());
    assert forall|k: int| 0 <= k < t1.len() implies #[trigger] t1[k] == t2[k] by {
        lemma_merkle_layer_unique(t1, t2, leaves, k as nat);
    }
    assert(t1 =~= t2);
}

proof fn lemma_merkle_layer_unique(t1: Seq<Seq<u8>>, t2: Seq<Seq<u8>>, leaves: Seq<Seq<u8>>, k: nat)
    requires
        is_merkle_tree(t1, leaves),
        is_merkle_tree(t2, leaves),
        k < t1.len(),
    ensures
        t1[k as int] == t2[k as int],
    decreases k,
{
    let d = log2(leaves.len());
    let m = pow2((d - k) as nat);
    assert(t1[k as int].len() == 32 * m);
    assert(t2[k as int].len() == 32 * m);
    if k == 0 {
        lemma_is_pow2_log2(leaves.len());
        assert forall|i: int| 0 <= i < m implies #[trigger] node(t1[0], i) == node(t2[0], i) by {
            assert(node(t1[0], i) == sha256(leaves[i]));
            assert(node(t2[0], i) == sha256(leaves[i]));
        }
    } else {
        lemma_merkle_layer_unique(t1, t2, leaves, (k - 1) as nat);
        assert forall|i: int| 0 <= i < m implies #[trigger] node(t1[k as int], i) == node(t2[k as int], i) by {
            assert(node(t1[k as int], i) == hash_pair(node(t1[k - 1], 2 * i), node(t1[k - 1], 2 * i + 1)));
            assert(node(t2[k as int], i) == hash_pair(node(t2[k - 1], 2 * i), node(t2[k - 1], 2 * i + 1)));
        }
    }
    lemma_layer_from_nodes(t1[k as int], t2[k as int], m);
}

/// The root of a witness is the commitment root of what it commits to.
proof fn lemma_witness_root<F: BinaryField>(
    w: RecursiveLigeroWitness<F>,
    poly: Seq<F>,
    m: usize,
    n: usize,
    rs: ReedSolomonEncoding<F>,
)
    requires
        witness_ok(w, m, n),
        m >= 1,
        is_commit_matrix(w.flat_mat@, poly, m as nat, n as nat, rs),
    ensures
        commit_matrix(poly, m as nat, n as nat, rs) == w.flat_mat@,
        commit_tree(poly, m as nat, n as nat, rs) == views(w.tree@),
        commit_root(poly, m as nat, n as nat, rs) == views(w.tree@).last(),
{
    lemma_commit_matrix_unique(w.flat_mat@, poly, m as nat, n as nat, rs);
    let leaves = matrix_leaves(w.flat_mat@, (4 * m) as nat, n as nat);
    let t = choose|tree: Seq<Seq<u8>>| #[trigger] is_merkle_tree(tree, leaves);
    assert(is_merkle_tree(views(w.tree@), leaves));
    lemma_merkle_tree_unique(t, views(w.tree@), leaves);
}

/// The state of a prover run: the folded polynomial `f`, the polynomial
/// `start` at the start of the current step, the basis polynomials `bs`,
/// the round values `tr`, the transcript state `fs`, the challenges `rs` of
/// the current step, the roots of the later commitments, whether every
/// draw and squeeze so far went through (`ok`), and whether every claimed
/// sum so far matched its round values (`sums`).
pub struct ProverTrace<F: BinaryField> {
    pub f: Seq<F>,
    pub start: Seq<F>,
    pub bs: Seq<Seq<F>>,
    pub tr: Seq<(F, F, F)>,
    pub fs: FsState,
    pub rs: Seq<F>,
    pub roots: Seq<Seq<u8>>,
    pub ok: bool,
    pub sums: bool,
}

/// The rows of the matrix `flat` (columns of `mt` symbols, `n` columns) at
/// the queries `qs`.
pub open spec fn rows_at<F>(flat: Seq<F>, qs: Seq<usize>, mt: nat, n: nat) -> Seq<Seq<F>> {
    Seq::new(qs.len(), |t: int| spec_row(flat, qs[t] as int, mt, n))
}

/// One sumcheck round: squeeze a challenge, fold `f` and the basis
/// polynomials at it, record the round values and absorb them.
pub open spec fn trace_fold<F: BinaryField>(st: ProverTrace<F>) -> ProverTrace<F> {
    let r = fs_challenge::<F>(st.fs);
    let f2 = spec_partial_eval(st.f, seq![r]);
    let bs2 = Seq::new(st.bs.len(), |t: int| spec_partial_eval(st.bs[t], seq![r]));
    let e = spec_eval_01x(f2, bs2, spec_three::<F>());
    ProverTrace {
        f: f2,
        start: st.start,
        bs: bs2,
        tr: st.tr.push(e),
        fs: fs_absorb(fs_squeeze(st.fs), round_bytes(e)),
        rs: st.rs.push(r),
        roots: st.roots,
        ok: st.ok && st.fs.1 < u32::MAX,
        sums: st.sums,
    }
}

/// `j` sumcheck rounds.
pub open spec fn trace_rounds<F: BinaryField>(st: ProverTrace<F>, j: nat) -> ProverTrace<F>
    decreases j,
{
    if j == 0 {
        st
    } else {
        trace_fold(trace_rounds(st, (j - 1) as nat))
    }
}

/// The end of step `i` when it is not the last: commit to `f` with the
/// parameters of step `i + 1` and absorb the root, open the matrix of step
/// `i` at the queries drawn then, and introduce and glue the basis
/// polynomial those rows induce.
pub open spec fn trace_next<F: BinaryField>(config: ProverConfig<F>, st: ProverTrace<F>, i: nat) -> ProverTrace<F> {
    let mn = config.dims@[i + 1 as int];
    let root = commit_root(st.f, mn.0 as nat, mn.1 as nat, config.reed_solomon_codes@[i + 1 as int]);
    let mp = config.dims@[i as int];
    let q = fs_draw(fs_absorb(st.fs, root), (4 * mp.0) as usize);
    let qs = sorted_of(q.0);
    let alpha = fs_challenge::<F>(q.1);
    let flat = commit_matrix(st.start, mp.0 as nat, mp.1 as nat, config.reed_solomon_codes@[i as int]);
    let rows = rows_at(flat, qs, (4 * mp.0) as nat, mp.1 as nat);
    let nv = log2(st.f.len());
    let b = spec_induced_basis(nv, sks_seq::<F>(nv), qs, alpha, NUM_QUERIES as nat);
    let h = spec_enforced_sum(rows, spec_lagrange_basis(st.rs, st.rs.len()), alpha, NUM_QUERIES as nat);
    let e = spec_eval_013_product(st.f, b);
    let fs2 = fs_absorb(fs_squeeze(q.1), round_bytes(e));
    let beta = fs_challenge::<F>(fs2);
    ProverTrace {
        f: st.f,
        start: st.f,
        bs: st.bs.push(spec_scaled(b, beta)),
        tr: st.tr.push(e),
        fs: fs_squeeze(fs2),
        rs: Seq::empty(),
        roots: st.roots.push(root),
        ok: st.ok && q.0.len() >= NUM_QUERIES && q.1.1 < u32::MAX && fs2.1 < u32::MAX,
        sums: st.sums && F::spec_add(e.0, e.1) == h,
    }
}

/// The root of the first commitment.
pub open spec fn trace_root0<F: BinaryField>(config: ProverConfig<F>, poly: Seq<F>) -> Seq<u8> {
    commit_root(poly, config.initial_dims.0 as nat, config.initial_dims.1 as nat, config.initial_reed_solomon)
}

/// The first `k0` challenges.
pub open spec fn trace_rs0<F: BinaryField>(config: ProverConfig<F>, poly: Seq<F>) -> Seq<F> {
    let t1 = spec_u32_to_le_bytes(1234) + trace_root0(config, poly);
    Seq::new(config.initial_k as nat, |j: int| fs_challenge::<F>(after_squeezes(t1, 0, j as nat)))
}

/// The state at the start of step 0: `poly` folded at the first
/// challenges, committed, and the first opening's basis polynomial
/// introduced.
pub open spec fn trace_initial<F: BinaryField>(config: ProverConfig<F>, poly: Seq<F>) -> ProverTrace<F> {
    let m0 = config.initial_dims.0;
    let n0 = config.initial_dims.1;
    let t1 = spec_u32_to_le_bytes(1234) + trace_root0(config, poly);
    let rs0 = trace_rs0(config, poly);
    let f = spec_partial_eval(poly, rs0);
    let mn = config.dims@[0];
    let root1 = commit_root(f, mn.0 as nat, mn.1 as nat, config.reed_solomon_codes@[0]);
    let q = fs_draw(fs_absorb(after_squeezes(t1, 0, config.initial_k as nat), root1), (4 * m0) as usize);
    let qs = sorted_of(q.0);
    let alpha = fs_challenge::<F>(q.1);
    let flat = commit_matrix(poly, m0 as nat, n0 as nat, config.initial_reed_solomon);
    let rows = rows_at(flat, qs, (4 * m0) as nat, n0 as nat);
    let nv = log2(f.len());
    let b = spec_induced_basis(nv, sks_seq::<F>(nv), qs, alpha, NUM_QUERIES as nat);
    let h = spec_enforced_sum(rows, spec_lagrange_basis(rs0, rs0.len()), alpha, NUM_QUERIES as nat);
    let e = spec_eval_013_product(f, b);
    ProverTrace {
        f: f,
        start: f,
        bs: seq![b],
        tr: seq![e],
        fs: fs_absorb(fs_squeeze(q.1), round_bytes(e)),
        rs: Seq::empty(),
        roots: seq![root1],
        ok: q.0.len() >= NUM_QUERIES && q.1.1 < u32::MAX,
        sums: F::spec_add(e.0, e.1) == h,
    }
}

/// The state at the start of step `i`.
pub open spec fn trace_step<F: BinaryField>(config: ProverConfig<F>, poly: Seq<F>, i: nat) -> ProverTrace<F>
    decreases i,
{
    if i == 0 {
        trace_initial(config, poly)
    } else {
        let j = (i - 1) as nat;
        trace_next(config, trace_rounds(trace_step(config, poly, j), config.ks@[j as int] as nat), j)
    }
}

/// The queries of the first opening.
pub open spec fn trace_initial_queries<F: BinaryField>(config: ProverConfig<F>, poly: Seq<F>) -> Seq<usize> {
    let t1 = spec_u32_to_le_bytes(1234) + trace_root0(config, poly);
    let f = spec_partial_eval(poly, trace_rs0(config, poly));
    let mn = config.dims@[0];
    let root1 = commit_root(f, mn.0 as nat, mn.1 as nat, config.reed_solomon_codes@[0]);
    fs_draw(fs_absorb(after_squeezes(t1, 0, config.initial_k as nat), root1), (4 * config.initial_dims.0) as usize).0
}

/// The queries at which the matrix of step `i` is opened: drawn after the
/// step's rounds and the next root, or after `yr` at the last step.
pub open spec fn trace_queries<F: BinaryField>(config: ProverConfig<F>, poly: Seq<F>, i: nat) -> Seq<usize> {
    let st = trace_rounds(trace_step(config, poly, i), config.ks@[i as int] as nat);
    let rows = (4 * config.dims@[i as int].0) as usize;
    if i + 1 >= config.recursive_steps {
        fs_draw(fs_absorb(st.fs, elems_bytes(st.f)), rows).0
    } else {
        let mn = config.dims@[i + 1 as int];
        fs_draw(fs_absorb(st.fs, commit_root(st.f, mn.0 as nat, mn.1 as nat, config.reed_solomon_codes@[i + 1 as int])), rows).0
    }
}

/// The state after the rounds of the last step.
pub open spec fn trace_final<F: BinaryField>(config: ProverConfig<F>, poly: Seq<F>) -> ProverTrace<F> {
    let last = (config.recursive_steps - 1) as nat;
    trace_rounds(trace_step(config, poly, last), config.ks@[last as int] as nat)
}

/// Whether the prover produces a proof: every draw and claimed sum goes
/// through, and so do the final queries drawn after `yr`.
pub open spec fn prover_succeeds<F: BinaryField>(config: ProverConfig<F>, poly: Seq<F>) -> bool {
    let st = trace_final(config, poly);
    let last = (config.recursive_steps - 1) as int;
    let q = fs_draw(fs_absorb(st.fs, elems_bytes(st.f)), (4 * config.dims@[last].0) as usize);
    st.ok && st.sums && q.0.len() >= NUM_QUERIES
}

/// Whether every draw and squeeze of the prover goes through, the final
/// queries drawn after `yr` included: whether the transcript's counter
/// never runs out.
pub open spec fn prover_draws_succeed<F: BinaryField>(config: ProverConfig<F>, poly: Seq<F>) -> bool {
    let st = trace_final(config, poly);
    let last = (config.recursive_steps - 1) as int;
    let q = fs_draw(fs_absorb(st.fs, elems_bytes(st.f)), (4 * config.dims@[last].0) as usize);
    st.ok && q.0.len() >= NUM_QUERIES
}

/// A failed draw or claimed sum stays failed.
proof fn lemma_rounds_ok<F: BinaryField>(st: ProverTrace<F>, j: nat)
    ensures
        trace_rounds(st, j).ok ==> st.ok,
        trace_rounds(st, j).sums == st.sums,
    decreases j,
{
    if j > 0 {
        lemma_rounds_ok(st, (j - 1) as nat);
    }
}

/// A state that fails before the end makes the run fail.
proof fn lemma_trace_ok<F: BinaryField>(config: ProverConfig<F>, poly: Seq<F>, i: nat)
    requires
        i < config.recursive_steps,
    ensures
        trace_final(config, poly).ok ==> trace_step(config, poly, i).ok,
        trace_final(config, poly).sums ==> trace_step(config, poly, i).sums,
    decreases config.recursive_steps - i,
{
    let last = (config.recursive_steps - 1) as nat;
    if i == last {
        lemma_rounds_ok(trace_step(config, poly, i), config.ks@[i as int] as nat);
    } else {
        lemma_trace_ok(config, poly, i + 1);
        lemma_rounds_ok(trace_step(config, poly, i), config.ks@[i as int] as nat);
    }
}

/// The prover's running state is the state `st` of the run.
spec fn prover_matches<F: BinaryField>(
    sp: SumcheckProverInstance<F>,
    fs: FsState,
    roots: Seq<Seq<u8>>,
    st: ProverTrace<F>,
) -> bool {
    &&& sp.f@ == st.f
    &&& polys_view(sp.basis_polys@) == st.bs
    &&& sp.transcript@ == st.tr
    &&& fs == st.fs
    &&& roots == st.roots
    &&& st.ok
    &&& st.sums
}

/// A failed round stays failed in later rounds.
proof fn lemma_rounds_prefix_ok<F: BinaryField>(st: ProverTrace<F>, a: nat, b: nat)
    requires
        a <= b,
    ensures
        trace_rounds(st, b).ok ==> trace_rounds(st, a).ok,
    decreases b,
{
    if a < b {
        lemma_rounds_prefix_ok(st, a, (b - 1) as nat);
    }
}

/// A failure in round `j` of step `i` makes the run fail.
proof fn lemma_fails_at<F: BinaryField>(config: ProverConfig<F>, poly: Seq<F>, i: nat, j: nat)
    requires
        i < config.recursive_steps,
        j <= config.ks@[i as int],
        !trace_rounds(trace_step(config, poly, i), j).ok,
    ensures
        !prover_succeeds(config, poly),
{
    let st = trace_step(config, poly, i);
    let k = config.ks@[i as int] as nat;
    lemma_rounds_prefix_ok(st, j, k);
    if i + 1 < config.recursive_steps {
        lemma_trace_ok(config, poly, i + 1);
    }
}

/// What the prover's proof holds for `poly`: the root of its first
/// commitment, the roots of the later commitments, `yr` and the round
/// values of the run, every opening made of the committed matrices at the
/// run's queries, the sizes of its parts, and the Merkle openings at the
/// queries drawn from its own transcript.
pub open spec fn is_prover_output<F: BinaryField>(
    config: ProverConfig<F>,
    poly: Seq<F>,
    p: FinalizedLigeritoProof<F>,
) -> bool {
    &&& p.initial_ligero_cm.root@ == trace_root0(config, poly)
    &&& commitment_roots(p.recursive_commitments@) == trace_final(config, poly).roots
    &&& p.final_ligero_proof.yr@ == trace_final(config, poly).f
    &&& p.sumcheck_transcript.tr@ == trace_final(config, poly).tr
    &&& opens_commitment(
        p.initial_ligero_proof.opened_rows@,
        p.initial_ligero_proof.merkle_proof@,
        poly,
        config.initial_dims.0 as nat,
        config.initial_dims.1 as nat,
        config.initial_reed_solomon,
        trace_initial_queries(config, poly),
    )
    &&& forall|j: int|
        0 <= j < config.recursive_steps - 1 ==> #[trigger] opens_commitment(
            p.recursive_proofs@[j].opened_rows@,
            p.recursive_proofs@[j].merkle_proof@,
            trace_step(config, poly, j as nat).start,
            config.dims@[j].0 as nat,
            config.dims@[j].1 as nat,
            config.reed_solomon_codes@[j],
            trace_queries(config, poly, j as nat),
        )
    &&& opens_commitment(
        p.final_ligero_proof.opened_rows@,
        p.final_ligero_proof.merkle_proof@,
        trace_step(config, poly, (config.recursive_steps - 1) as nat).start,
        config.dims@[config.recursive_steps - 1].0 as nat,
        config.dims@[config.recursive_steps - 1].1 as nat,
        config.reed_solomon_codes@[config.recursive_steps - 1],
        trace_queries(config, poly, (config.recursive_steps - 1) as nat),
    )
    &&& is_commitment(
        p.initial_ligero_cm.root@,
        poly,
        config.initial_dims.0 as nat,
        config.initial_dims.1 as nat,
        config.initial_reed_solomon,
    )
    &&& p.recursive_commitments@.len() == config.recursive_steps
    &&& p.recursive_proofs@.len() == config.recursive_steps - 1
    &&& p.initial_ligero_proof.opened_rows@.len() == NUM_QUERIES
    &&& p.final_ligero_proof.opened_rows@.len() == NUM_QUERIES
    &&& p.final_ligero_proof.yr@.len() == pow2(
        vars_before_step(config, log2(poly.len()), config.recursive_steps as nat) as nat,
    )
    &&& p.sumcheck_transcript.tr@.len() == 1 + ks_sum(config.ks@, config.recursive_steps as nat)
        + config.recursive_steps - 1
    &&& opening_at(
        p.initial_ligero_cm.root@,
        p.initial_ligero_proof.merkle_proof@,
        log2((4 * config.initial_dims.0) as nat),
        p.initial_ligero_proof.opened_rows@,
        initial_draw(
            p.initial_ligero_cm.root@,
            config.initial_k as nat,
            p.recursive_commitments@[0].root@,
            (4 * config.initial_dims.0) as usize,
        ),
    )
    &&& forall|j: int|
        0 <= j < config.recursive_steps - 1 ==> #[trigger] opening_at(
            p.recursive_commitments@[j].root@,
            p.recursive_proofs@[j].merkle_proof@,
            log2((4 * config.dims@[j].0) as nat),
            p.recursive_proofs@[j].opened_rows@,
            step_draw(
                p.initial_ligero_cm.root@,
                commitment_roots(p.recursive_commitments@),
                p.sumcheck_transcript.tr@,
                config.initial_k as nat,
                config.ks@,
                (4 * config.initial_dims.0) as usize,
                prover_rows(config),
                j as nat,
            ),
        )
    &&& opening_at(
        p.recursive_commitments@[config.recursive_steps - 1].root@,
        p.final_ligero_proof.merkle_proof@,
        log2((4 * config.dims@[config.recursive_steps - 1].0) as nat),
        p.final_ligero_proof.opened_rows@,
        final_draw(
            p.initial_ligero_cm.root@,
            commitment_roots(p.recursive_commitments@),
            p.sumcheck_transcript.tr@,
            config.initial_k as nat,
            config.ks@,
            (4 * config.initial_dims.0) as usize,
            prover_rows(config),
            (config.recursive_steps - 1) as nat,
            elems_bytes(p.final_ligero_proof.yr@),
        ),
    )
}

/// Two openings with the same rows and Merkle openings.
pub open spec fn same_opening<F: BinaryField>(a: RecursiveLigeroProof<F>, b: RecursiveLigeroProof<F>) -> bool {
    &&& rows_view(a.opened_rows@) == rows_view(b.opened_rows@)
    &&& views(a.merkle_proof@) == views(b.merkle_proof@)
}

/// The prover is deterministic: two proofs it gives for the same
/// parameters and polynomial hold the same roots, opened rows, Merkle
/// openings, `yr` and round values.
pub proof fn lemma_prover_output_unique<F: BinaryField>(
    config: ProverConfig<F>,
    poly: Seq<F>,
    p1: FinalizedLigeritoProof<F>,
    p2: FinalizedLigeritoProof<F>,
)
    requires
        is_prover_output(config, poly, p1),
        is_prover_output(config, poly, p2),
    ensures
        p1.initial_ligero_cm.root@ == p2.initial_ligero_cm.root@,
        commitment_roots(p1.recursive_commitments@) == commitment_roots(p2.recursive_commitments@),
        rows_view(p1.initial_ligero_proof.opened_rows@) == rows_view(p2.initial_ligero_proof.opened_rows@),
        views(p1.initial_ligero_proof.merkle_proof@) == views(p2.initial_ligero_proof.merkle_proof@),
        forall|j: int|
            0 <= j < config.recursive_steps - 1 ==> #[trigger] same_opening(p1.recursive_proofs@[j], p2.recursive_proofs@[j]),
        rows_view(p1.final_ligero_proof.opened_rows@) == rows_view(p2.final_ligero_proof.opened_rows@),
        views(p1.final_ligero_proof.merkle_proof@) == views(p2.final_ligero_proof.merkle_proof@),
        p1.final_ligero_proof.yr@ == p2.final_ligero_proof.yr@,
        p1.sumcheck_transcript.tr@ == p2.sumcheck_transcript.tr@,
{
    assert forall|j: int| 0 <= j < config.recursive_steps - 1 implies #[trigger] same_opening(
        p1.recursive_proofs@[j],
        p2.recursive_proofs@[j],
    ) by {
        assert(opens_commitment(
            p1.recursive_proofs@[j].opened_rows@,
            p1.recursive_proofs@[j].merkle_proof@,
            trace_step(config, poly, j as nat).start,
            config.dims@[j].0 as nat,
            config.dims@[j].1 as nat,
            config.reed_solomon_codes@[j],
            trace_queries(config, poly, j as nat),
        ));
        assert(opens_commitment(
            p2.recursive_proofs@[j].opened_rows@,
            p2.recursive_proofs@[j].merkle_proof@,
            trace_step(config, poly, j as nat).start,
            config.dims@[j].0 as nat,
            config.dims@[j].1 as nat,
            config.reed_solomon_codes@[j],
            trace_queries(config, poly, j as nat),
        ));
    }
}

/// The number of rows of the matrix of each step.
pub open spec fn prover_rows<F: BinaryField>(config: ProverConfig<F>) -> Seq<usize> {
    Seq::new(config.dims@.len(), |i: int| (4 * config.dims@[i].0) as usize)
}

/// A witness of a commitment of `2^nv` values with the dimensions `(m, n)`.
spec fn witness_ok<F: BinaryField>(w: RecursiveLigeroWitness<F>, m: usize, n: usize) -> bool {
    &&& w.num_rows == 4 * m
    &&& w.num_cols == n
    &&& w.flat_mat@.len() == n * (4 * m)
    &&& is_merkle_tree(views(w.tree@), matrix_leaves(w.flat_mat@, (4 * m) as nat, n as nat))
}

/// The rows of the matrix at the queries.
fn open_rows<F: BinaryField>(w: &RecursiveLigeroWitness<F>, queries: &Vec<usize>) -> (r: Vec<Vec<F>>)
    requires
        w.flat_mat@.len() == w.num_cols * w.num_rows,
        forall|i: int| 0 <= i < queries@.len() ==> #[trigger] queries@[i] < w.num_rows,
    ensures
        r@.len() == queries@.len(),
        forall|i: int| 0 <= i < r@.len() ==> (#[trigger] r@[i])@.len() == w.num_cols,
        forall|i: int|
            0 <= i < r@.len() ==> (#[trigger] r@[i])@ == spec_row(
                w.flat_mat@,
                queries@[i] as int,
                w.num_rows as nat,
                w.num_cols as nat,
            ),
{
    let mut rows: Vec<Vec<F>> = Vec::with_capacity(queries.len());
    let mut i: usize = 0;
    while i < queries.len()
        invariant
            i <= queries@.len(),
            w.flat_mat@.len() == w.num_cols * w.num_rows,
            forall|t: int| 0 <= t < queries@.len() ==> #[trigger] queries@[t] < w.num_rows,
            rows@.len() == i,
            forall|t: int| 0 <= t < i ==> (#[trigger] rows@[t])@.len() == w.num_cols,
            forall|t: int|
                0 <= t < i ==> (#[trigger] rows@[t])@ == spec_row(
                    w.flat_mat@,
                    queries@[t] as int,
                    w.num_rows as nat,
                    w.num_cols as nat,
                ),
        decreases queries@.len() - i,
    {
        let q = queries[i];
        proof {
            if w.num_cols > 0 {
                assert((w.num_cols - 1) * w.num_rows + w.num_rows == w.num_cols * w.num_rows) by (nonlinear_arith);
            }
        }
        let row = extract_row(w.flat_mat.as_slice(), q, w.num_rows, w.num_cols);
        rows.push(row);
        i = i + 1;
    }
    rows
}

/// The Merkle root of a witness.
fn root_of<F: BinaryField>(w: &RecursiveLigeroWitness<F>, m: usize, n: usize) -> (r: Vec<u8>)
    requires
        witness_ok(*w, m, n),
    ensures
        r@ == views(w.tree@).last(),
{
    proof {
        lemma_merkle_tree_shape(views(w.tree@), matrix_leaves(w.flat_mat@, (4 * m) as nat, n as nat));
    }
    let last = w.tree.len() - 1;
    slice_to_vec(w.tree[last].as_slice())
}

/// The rows of a witness at sorted, distinct queries, with the Merkle
/// opening of those queries, open the witness's root.
proof fn lemma_witness_opening<F: BinaryField>(
    w: RecursiveLigeroWitness<F>,
    m: usize,
    n: usize,
    qs: Seq<usize>,
    rows: Seq<Vec<F>>,
    mp: Seq<Vec<u8>>,
    drawn: Seq<usize>,
)
    requires
        witness_ok(w, m, n),
        qs.to_multiset() == drawn.to_multiset(),
        qs.len() == NUM_QUERIES,
        strictly_increasing(qs),
        all_below(qs, (4 * m) as int),
        rows.len() == qs.len(),
        forall|i: int|
            0 <= i < rows.len() ==> (#[trigger] rows[i])@ == spec_row(w.flat_mat@, qs[i] as int, (4 * m) as nat, n as nat),
        views(mp) == spec_prove(views(w.tree@), qs),
    ensures
        opening_accepted(views(w.tree@).last(), mp, log2((4 * m) as nat), rows),
        opening_at(views(w.tree@).last(), mp, log2((4 * m) as nat), rows, drawn),
{
    let tree = views(w.tree@);
    let leaves = matrix_leaves(w.flat_mat@, (4 * m) as nat, n as nat);
    lemma_prove_then_verify(leaves, tree, qs);
    assert(rows_bytes(rows) =~= opened_leaves(leaves, qs));
    assert(spec_verify(tree.last(), views(mp), log2((4 * m) as nat), rows_bytes(rows), qs));
}

proof fn lemma_ks_sum_mono(ks: Seq<usize>, a: nat, b: nat)
    requires
        a <= b <= ks.len(),
    ensures
        ks_sum(ks, a) <= ks_sum(ks, b),
    decreases b - a,
{
    if a < b {
        lemma_ks_sum_mono(ks, a, (b - 1) as nat);
    }
}

proof fn lemma_ks_sum_step(ks: Seq<usize>, i: nat)
    requires
        i < ks.len(),
    ensures
        ks_sum(ks, i + 1) == ks_sum(ks, i) + ks[i as int],
{
}

/// Produces a Ligerito proof for the multilinear polynomial with the given
/// `2^log_n` evaluations: commits to it, folds it with challenges drawn
/// from the transcript, and opens each commitment at distinct queries drawn
/// from the transcript. `None` when the transcript's squeeze counter runs
/// out, or when a claimed sum does not match the sumcheck round values
/// (exactly when `prover_succeeds` fails); the proof holds what the run
/// computes (`is_prover_output`).
#[verifier::rlimit(100)]
#[verifier::spinoff_prover]
pub fn prover<F: BinaryField>(config: ProverConfig<F>, poly: Vec<F>) -> (r: Option<FinalizedLigeritoProof<F>>)
    requires
        is_pow2(poly@.len()),
        prover_config_ok(config, log2(poly@.len())),
    ensures
        r is Some <==> prover_succeeds(config, poly@),
        r matches Some(p) ==> is_prover_output(config, poly@, p),
{
    let ghost log_n = log2(poly@.len());
    let ghost poly_v = poly@;
    proof {
        assert(poly@.len() == poly.len());
        crate::binary_fft::lemma_is_pow2_log2(poly@.len());
        crate::binary_fft::lemma_log2_fits(poly@.len());
    }
    let mut fs = FS::new(1234);
    let s: usize = NUM_QUERIES;
    let (m0, n0) = config.initial_dims;
    let wtns_0 = ligero_commit(poly.as_slice(), m0, n0, &config.initial_reed_solomon);
    let root0 = root_of(&wtns_0, m0, n0);
    let ghost initial_root = root0@;
    proof {
        lemma_witness_root(wtns_0, poly@, m0, n0, config.initial_reed_solomon);
        assert(initial_root == trace_root0(config, poly@));
    }
    proof {
        assert(is_commitment(initial_root, poly@, m0 as nat, n0 as nat, config.initial_reed_solomon)) by {
            let flat = wtns_0.flat_mat@;
            let tree = views(wtns_0.tree@);
            assert(forall|j: int|
                0 <= j < n0 ==> #[trigger] column(flat, (4 * m0) as nat, j) == rs_encoded(
                    config.initial_reed_solomon,
                    spec_pad(poly@.subrange(j * m0, j * m0 + m0), (4 * m0) as nat),
                ));
        }
    }
    let mut proof: LigeritoProof<F> = LigeritoProof {
        initial_ligero_cm: RecursiveLigeroCommitment { root: root0 },
        initial_ligero_proof: None,
        recursive_commitments: Vec::with_capacity(config.recursive_steps),
        recursive_proofs: Vec::with_capacity(config.recursive_steps),
        final_ligero_proof: None,
        sumcheck_transcript: None,
    };
    fs.absorb(proof.initial_ligero_cm.root.as_slice());
    let ghost t1 = fs.spec_transcript();
    assert(t1 == spec_u32_to_le_bytes(1234) + initial_root);
    let mut partial_evals_0: Vec<F> = Vec::with_capacity(config.initial_k);
    let mut t: usize = 0;
    while t < config.initial_k
        invariant
            t <= config.initial_k,
            partial_evals_0@.len() == t,
            (fs.spec_transcript(), fs.spec_counter()) == after_squeezes(t1, 0, t as nat),
            fs.spec_counter() == t,
            config.initial_k < 64,
            forall|u: int| 0 <= u < t ==> #[trigger] partial_evals_0@[u] == fs_challenge::<F>(after_squeezes(t1, 0, u as nat)),
        decreases config.initial_k - t,
    {
        match next_field::<F>(&mut fs) {
            Some(v) => partial_evals_0.push(v),
            None => {
                return None;
            },
        }
        t = t + 1;
    }
    assert(partial_evals_0@ =~= trace_rs0(config, poly_v));
    let mut f = MultiLinearPoly::new(poly);
    f = f.partial_eval(partial_evals_0.as_slice());
    let (m1, n1) = config.dims[0];
    proof {
        assert(config.ks@[0] >= 1);
        assert(vars_before_step(config, log_n, 0) == log_n - config.initial_k);
    }
    let _ = f.num_vars();
    let wtns_1 = ligero_commit(f.evals().as_slice(), m1, n1, &config.reed_solomon_codes[0]);
    let cm_1 = RecursiveLigeroCommitment { root: root_of(&wtns_1, m1, n1) };
    let ghost st0 = trace_initial(config, poly_v);
    proof {
        lemma_witness_root(wtns_1, f@, m1, n1, config.reed_solomon_codes@[0]);
        assert(f@ == st0.f);
        assert(cm_1.root@ == st0.roots[0]);
    }
    fs.absorb(cm_1.root.as_slice());
    proof.recursive_commitments.push(cm_1);
    let ghost q0 = fs_draw(
        fs_absorb(after_squeezes(t1, 0, config.initial_k as nat), st0.roots[0]),
        (4 * m0) as usize,
    );
    proof {
        assert(t1 == spec_u32_to_le_bytes(1234) + trace_root0(config, poly_v));
        assert(fs.spec_transcript() == fs_absorb(after_squeezes(t1, 0, config.initial_k as nat), st0.roots[0]).0);
    }
    let mut queries = match draw_sorted_queries(&mut fs, wtns_0.num_rows, s) {
        Some(q) => q,
        None => {
            proof {
                lemma_trace_ok(config, poly_v, 0);
            }
            return None;
        },
    };
    proof {
        crate::ligerito_verifier::lemma_sorted_of(queries@, q0.0);
        assert((fs.spec_transcript(), fs.spec_counter()) == q0.1);
    }
    let alpha: F = match next_field::<F>(&mut fs) {
        Some(v) => v,
        None => {
            proof {
                lemma_trace_ok(config, poly_v, 0);
            }
            return None;
        },
    };
    let nv = f.num_vars();
    let _ = f.evals().len();
    proof {
        lemma_pow2_pos(nv as nat);
    }
    let size = pow2_usize(nv);
    proof {
        lemma_pow2_is_pow2(nv as nat);
        F::lemma_order();
    }
    let mut sks_vks = eval_sk_at_vks::<F>(size);
    proof {
        lemma_pow2_is_pow2(nv as nat);
        assert(log2(size as nat) == nv);
        assert(log2(f@.len()) == nv);
        assert(sks_vks@ =~= sks_seq::<F>(nv as nat));
        assert(config.initial_reed_solomon.spec_log_block_length() == log2((4 * m0) as nat)) by {
            lemma_pow2_is_pow2(config.initial_reed_solomon.spec_log_block_length());
        }
    }
    let b0 = config.initial_reed_solomon.block_length();
    let mut opened_rows = open_rows(&wtns_0, &queries);
    proof {
        lemma_merkle_tree_shape(views(wtns_0.tree@), matrix_leaves(wtns_0.flat_mat@, (4 * m0) as nat, n0 as nat));
    }
    let mut mtree_proof = prove(&wtns_0.tree, &queries);
    proof {
        lemma_witness_opening(
            wtns_0,
            m0,
            n0,
            queries@,
            opened_rows@,
            mtree_proof@,
            initial_draw(initial_root, config.initial_k as nat, proof.recursive_commitments@[0].root@, wtns_0.num_rows),
        );
    }
    proof {
        lemma_witness_root(wtns_0, poly_v, m0, n0, config.initial_reed_solomon);
        assert(crate::sumcheck_polys::rows_view(opened_rows@) =~= rows_at(
            commit_matrix(poly_v, m0 as nat, n0 as nat, config.initial_reed_solomon),
            sorted_of(q0.0),
            (4 * m0) as nat,
            n0 as nat,
        ));
    }
    proof {
        assert(q0.0 == trace_initial_queries(config, poly_v));
        assert(opens_commitment(
            opened_rows@,
            mtree_proof@,
            poly_v,
            m0 as nat,
            n0 as nat,
            config.initial_reed_solomon,
            trace_initial_queries(config, poly_v),
        ));
    }
    let (basis_poly, enforced_sum) = induce_sumcheck_poly(nv, &sks_vks, &opened_rows, &partial_evals_0, &queries, alpha);
    proof.initial_ligero_proof = Some(RecursiveLigeroProof { opened_rows, merkle_proof: mtree_proof });
    proof {
        lemma_pow2_is_pow2(nv as nat);
    }
    let b1 = MultiLinearPoly::new(basis_poly);
    let (mut sumcheck_prover, s1) = match SumcheckProverInstance::new(f, b1, enforced_sum) {
        Some(x) => x,
        None => {
            proof {
                lemma_trace_ok(config, poly_v, 0);
            }
            return None;
        },
    };
    fs.absorb(s1.to_bytes().as_slice());
    proof {
        assert(sumcheck_prover.f@ == st0.f);
        assert(polys_view(sumcheck_prover.basis_polys@) =~= st0.bs);
        assert(sumcheck_prover.transcript@ == st0.tr);
        assert(s1 == QuadraticEvals { e0: st0.tr[0].0, e1: st0.tr[0].1, e2: st0.tr[0].2 });
        assert((fs.spec_transcript(), fs.spec_counter()) == st0.fs);
        assert(commitment_roots(proof.recursive_commitments@) =~= st0.roots);
        assert(st0.ok);
        assert(st0.sums);
        assert(prover_matches(
            sumcheck_prover,
            (fs.spec_transcript(), fs.spec_counter()),
            commitment_roots(proof.recursive_commitments@),
            trace_step(config, poly_v, 0),
        ));
    }
    proof {
        let tr = sumcheck_prover.transcript@;
        assert(s1 == QuadraticEvals { e0: tr[0].0, e1: tr[0].1, e2: tr[0].2 });
        assert(commitment_roots(proof.recursive_commitments@)[0] == proof.recursive_commitments@[0].root@);
        assert((fs.spec_transcript(), fs.spec_counter()) == fs_step_start(
            initial_root,
            commitment_roots(proof.recursive_commitments@),
            tr,
            config.initial_k as nat,
            config.ks@,
            (4 * m0) as usize,
            prover_rows(config),
            0,
        ));
    }
    let mut wtns_prev = wtns_1;
    let mut i: usize = 0;
    while i < config.recursive_steps
        invariant
            0 <= i < config.recursive_steps,
            prover_config_ok(config, log_n),
            log_n < 64,
            s == NUM_QUERIES,
            sumcheck_prover.f.spec_num_vars() == vars_before_step(config, log_n, i as nat),
            sumcheck_prover.basis_polys@.len() >= 1,
            all_num_vars(sumcheck_prover.basis_polys@, sumcheck_prover.f.spec_num_vars()),
            sumcheck_prover.to_be_glued is None,
            sumcheck_prover.transcript@.len() == 1 + ks_sum(config.ks@, i as nat) + i,
            witness_ok(wtns_prev, config.dims@[i as int].0, config.dims@[i as int].1),
            proof.recursive_commitments@.len() == i + 1,
            proof.recursive_proofs@.len() == i,
            proof.initial_ligero_proof matches Some(p) && p.opened_rows@.len() == NUM_QUERIES,
            proof.initial_ligero_proof matches Some(p) && opening_at(
                initial_root,
                p.merkle_proof@,
                log2((4 * m0) as nat),
                p.opened_rows@,
                initial_draw(initial_root, config.initial_k as nat, proof.recursive_commitments@[0].root@, (4 * m0) as usize),
            ),
            proof.recursive_commitments@[i as int].root@ == views(wtns_prev.tree@).last(),
            forall|j: int|
                0 <= j < i ==> #[trigger] opening_at(
                    proof.recursive_commitments@[j].root@,
                    proof.recursive_proofs@[j].merkle_proof@,
                    log2((4 * config.dims@[j].0) as nat),
                    proof.recursive_proofs@[j].opened_rows@,
                    step_draw(
                        initial_root,
                        commitment_roots(proof.recursive_commitments@),
                        sumcheck_prover.transcript@,
                        config.initial_k as nat,
                        config.ks@,
                        (4 * m0) as usize,
                        prover_rows(config),
                        j as nat,
                    ),
                ),
            (fs.spec_transcript(), fs.spec_counter()) == fs_step_start(
                initial_root,
                commitment_roots(proof.recursive_commitments@),
                sumcheck_prover.transcript@,
                config.initial_k as nat,
                config.ks@,
                (4 * m0) as usize,
                prover_rows(config),
                i as nat,
            ),
            proof.initial_ligero_cm.root@ == initial_root,
            is_commitment(initial_root, poly_v, m0 as nat, n0 as nat, config.initial_reed_solomon),
            initial_root == trace_root0(config, poly_v),
            (m0, n0) == config.initial_dims,
            poly_v == poly@,
            log_n == log2(poly_v.len()),
            prover_matches(
                sumcheck_prover,
                (fs.spec_transcript(), fs.spec_counter()),
                commitment_roots(proof.recursive_commitments@),
                trace_step(config, poly_v, i as nat),
            ),
            wtns_prev.flat_mat@ == commit_matrix(
                trace_step(config, poly_v, i as nat).start,
                config.dims@[i as int].0 as nat,
                config.dims@[i as int].1 as nat,
                config.reed_solomon_codes@[i as int],
            ),
            trace_step(config, poly_v, i as nat).rs == Seq::<F>::empty(),
            views(wtns_prev.tree@) == commit_tree(
                trace_step(config, poly_v, i as nat).start,
                config.dims@[i as int].0 as nat,
                config.dims@[i as int].1 as nat,
                config.reed_solomon_codes@[i as int],
            ),
            proof.initial_ligero_proof matches Some(p) && opens_commitment(
                p.opened_rows@,
                p.merkle_proof@,
                poly_v,
                m0 as nat,
                n0 as nat,
                config.initial_reed_solomon,
                trace_initial_queries(config, poly_v),
            ),
            forall|j: int|
                0 <= j < i ==> #[trigger] opens_commitment(
                    proof.recursive_proofs@[j].opened_rows@,
                    proof.recursive_proofs@[j].merkle_proof@,
                    trace_step(config, poly_v, j as nat).start,
                    config.dims@[j].0 as nat,
                    config.dims@[j].1 as nat,
                    config.reed_solomon_codes@[j],
                    trace_queries(config, poly_v, j as nat),
                ),
            trace_step(config, poly_v, i as nat).start == trace_step(config, poly_v, i as nat).f,
        decreases config.recursive_steps - i,
    {
        let ghost nv_i = vars_before_step(config, log_n, i as nat);
        proof {
            assert(config.ks@[i as int] >= 1);
            lemma_ks_sum_step(config.ks@, i as nat);
        }
        let k_i = config.ks[i];
        let ghost tr_start = sumcheck_prover.transcript@;
        let ghost roots_start = commitment_roots(proof.recursive_commitments@);
        let ghost st_i = fs_step_start(
            initial_root,
            roots_start,
            tr_start,
            config.initial_k as nat,
            config.ks@,
            (4 * m0) as usize,
            prover_rows(config),
            i as nat,
        );
        let mut rs: Vec<F> = Vec::with_capacity(k_i);
        let mut j: usize = 0;
        while j < k_i
            invariant
                (fs.spec_transcript(), fs.spec_counter()) == fs_folds(
                    st_i,
                    sumcheck_prover.transcript@,
                    step_entry(config.ks@, i as nat),
                    j as nat,
                ),
                agree_below(tr_start, sumcheck_prover.transcript@, step_entry(config.ks@, i as nat)),
                tr_start.len() == step_entry(config.ks@, i as nat),
                j <= k_i,
                k_i == config.ks@[i as int],
                nv_i - k_i >= 1,
                sumcheck_prover.f.spec_num_vars() == nv_i - j,
                sumcheck_prover.basis_polys@.len() >= 1,
                all_num_vars(sumcheck_prover.basis_polys@, sumcheck_prover.f.spec_num_vars()),
                sumcheck_prover.to_be_glued is None,
                sumcheck_prover.transcript@.len() == 1 + ks_sum(config.ks@, i as nat) + i + j,
                rs@.len() == j,
                i < config.recursive_steps,
                poly_v == poly@,
                prover_matches(
                    sumcheck_prover,
                    (fs.spec_transcript(), fs.spec_counter()),
                    commitment_roots(proof.recursive_commitments@),
                    trace_rounds(trace_step(config, poly_v, i as nat), j as nat),
                ),
                rs@ == trace_rounds(trace_step(config, poly_v, i as nat), j as nat).rs,
                trace_rounds(trace_step(config, poly_v, i as nat), j as nat).start == trace_step(config, poly_v, i as nat).start,
            decreases k_i - j,
        {
            let ghost st_j = trace_rounds(trace_step(config, poly_v, i as nat), j as nat);
            let ri: F = match next_field::<F>(&mut fs) {
                Some(v) => v,
                None => {
                    proof {
                        lemma_fails_at(config, poly_v, i as nat, (j + 1) as nat);
                    }
                    return None;
                },
            };
            let ghost tr_before = sumcheck_prover.transcript@;
            let folded = sumcheck_prover.fold(ri);
            fs.absorb(folded.to_bytes().as_slice());
            proof {
                let st2 = trace_fold(st_j);
                assert(st2 == trace_rounds(trace_step(config, poly_v, i as nat), (j + 1) as nat));
                assert(polys_view(sumcheck_prover.basis_polys@) =~= st2.bs);
                assert(sumcheck_prover.f@ == st2.f);
                assert(triple(folded) == st2.tr.last());
                assert(folded == QuadraticEvals { e0: st2.tr.last().0, e1: st2.tr.last().1, e2: st2.tr.last().2 });
                assert((fs.spec_transcript(), fs.spec_counter()) == st2.fs);
            }
            proof {
                let tr_now = sumcheck_prover.transcript@;
                let at = step_entry(config.ks@, i as nat) + j;
                assert(tr_now[at] == triple(folded));
                assert(folded == QuadraticEvals { e0: tr_now[at].0, e1: tr_now[at].1, e2: tr_now[at].2 });
                lemma_fs_folds_frame(st_i, tr_before, tr_now, step_entry(config.ks@, i as nat), j as nat);
            }
            rs.push(ri);
            j = j + 1;
        }
        proof {
            let tr_cur = sumcheck_prover.transcript@;
            let roots = commitment_roots(proof.recursive_commitments@);
            assert(roots == roots_start);
            lemma_fs_step_start_frame(
                initial_root,
                roots,
                roots,
                tr_start,
                tr_cur,
                config.initial_k as nat,
                config.ks@,
                (4 * m0) as usize,
                prover_rows(config),
                i as nat,
            );
            assert forall|jj: int| 0 <= jj < i implies #[trigger] opening_at(
                proof.recursive_commitments@[jj].root@,
                proof.recursive_proofs@[jj].merkle_proof@,
                log2((4 * config.dims@[jj].0) as nat),
                proof.recursive_proofs@[jj].opened_rows@,
                step_draw(
                    initial_root,
                    roots,
                    tr_cur,
                    config.initial_k as nat,
                    config.ks@,
                    (4 * m0) as usize,
                    prover_rows(config),
                    jj as nat,
                ),
            ) by {
                assert(opening_at(
                    proof.recursive_commitments@[jj].root@,
                    proof.recursive_proofs@[jj].merkle_proof@,
                    log2((4 * config.dims@[jj].0) as nat),
                    proof.recursive_proofs@[jj].opened_rows@,
                    step_draw(
                        initial_root,
                        roots,
                        tr_start,
                        config.initial_k as nat,
                        config.ks@,
                        (4 * m0) as usize,
                        prover_rows(config),
                        jj as nat,
                    ),
                ));
                lemma_ks_sum_step(config.ks@, jj as nat);
                lemma_ks_sum_mono(config.ks@, (jj + 1) as nat, i as nat);
                lemma_step_draw_frame(
                    initial_root,
                    roots,
                    roots,
                    tr_start,
                    tr_cur,
                    config.initial_k as nat,
                    config.ks@,
                    (4 * m0) as usize,
                    prover_rows(config),
                    jj as nat,
                );
            }
        }
        let ghost st_e = trace_rounds(trace_step(config, poly_v, i as nat), k_i as nat);
        if i == config.recursive_steps - 1 {
            proof {
                assert(st_e == trace_final(config, poly_v));
            }
            let evals_u8 = elems_to_bytes(sumcheck_prover.f.evals().as_slice());
            fs.absorb(evals_u8.as_slice());
            let ghost qf = fs_draw(fs_absorb(st_e.fs, elems_bytes(st_e.f)), (4 * config.dims@[i as int].0) as usize);
            let final_queries = match draw_sorted_queries(&mut fs, wtns_prev.num_rows, s) {
                Some(q) => q,
                None => {
                    proof {
                        assert(!prover_succeeds(config, poly_v));
                    }
                    return None;
                },
            };
            proof {
                assert(prover_succeeds(config, poly_v));
                crate::ligerito_verifier::lemma_sorted_of(final_queries@, qf.0);
                assert(qf.0 == trace_queries(config, poly_v, i as nat));
            }
            let final_rows = open_rows(&wtns_prev, &final_queries);
            proof {
                lemma_merkle_tree_shape(
                    views(wtns_prev.tree@),
                    matrix_leaves(
                        wtns_prev.flat_mat@,
                        (4 * config.dims@[i as int].0) as nat,
                        config.dims@[i as int].1 as nat,
                    ),
                );
            }
            let final_proof = prove(&wtns_prev.tree, &final_queries);
            proof {
                assert(rows_view(final_rows@) =~= rows_at(
                    wtns_prev.flat_mat@,
                    final_queries@,
                    (4 * config.dims@[i as int].0) as nat,
                    config.dims@[i as int].1 as nat,
                ));
                assert(opens_commitment(
                    final_rows@,
                    final_proof@,
                    trace_step(config, poly_v, i as nat).start,
                    config.dims@[i as int].0 as nat,
                    config.dims@[i as int].1 as nat,
                    config.reed_solomon_codes@[i as int],
                    trace_queries(config, poly_v, i as nat),
                ));
            }
            proof {
                lemma_witness_opening(
                    wtns_prev,
                    config.dims@[i as int].0,
                    config.dims@[i as int].1,
                    final_queries@,
                    final_rows@,
                    final_proof@,
                    final_draw(
                        initial_root,
                        commitment_roots(proof.recursive_commitments@),
                        sumcheck_prover.transcript@,
                        config.initial_k as nat,
                        config.ks@,
                        (4 * m0) as usize,
                        prover_rows(config),
                        i as nat,
                        elems_bytes(sumcheck_prover.f@),
                    ),
                );
            }
            let _ = sumcheck_prover.f.num_vars();
            let yr = crate::multilinear_poly::copy_vec(sumcheck_prover.f.evals());
            proof.final_ligero_proof = Some(FinalLigeroProof { yr, opened_rows: final_rows, merkle_proof: final_proof });
            let tr = copy_transcript(&sumcheck_prover.transcript);
            proof.sumcheck_transcript = Some(SumcheckTranscript { tr });
            let LigeritoProof {
                initial_ligero_cm,
                initial_ligero_proof,
                recursive_commitments,
                recursive_proofs,
                final_ligero_proof,
                sumcheck_transcript,
            } = proof;
            let initial_ligero_proof = match initial_ligero_proof {
                Some(p) => p,
                None => {
                    return None;
                },
            };
            let final_ligero_proof = match final_ligero_proof {
                Some(p) => p,
                None => {
                    return None;
                },
            };
            let sumcheck_transcript = match sumcheck_transcript {
                Some(p) => p,
                None => {
                    return None;
                },
            };
            proof {
                assert(recursive_commitments@.len() == config.recursive_steps);
                assert(recursive_proofs@.len() == config.recursive_steps - 1);
                assert(initial_ligero_proof.opened_rows@.len() == NUM_QUERIES);
                assert(final_ligero_proof.opened_rows@.len() == NUM_QUERIES);
                assert(final_ligero_proof.yr@.len() == pow2(
                    vars_before_step(config, log_n, config.recursive_steps as nat) as nat,
                ));
                assert(sumcheck_transcript.tr@.len() == 1 + ks_sum(config.ks@, config.recursive_steps as nat)
                    + config.recursive_steps - 1);
                assert(initial_ligero_cm.root@ == initial_root);
            }
            return Some(
                FinalizedLigeritoProof {
                    initial_ligero_cm,
                    recursive_commitments,
                    initial_ligero_proof,
                    recursive_proofs,
                    final_ligero_proof,
                    sumcheck_transcript,
                },
            );
        }
        proof {
            assert(config.ks@[i + 1] >= 1);
            lemma_ks_sum_step(config.ks@, (i + 1) as nat);
            assert(vars_before_step(config, log_n, (i + 1) as nat) == nv_i - k_i);
        }
        let (m_next, n_next) = config.dims[i + 1];
        let _ = sumcheck_prover.f.num_vars();
        let wtns_next = ligero_commit(
            sumcheck_prover.f.evals().as_slice(),
            m_next,
            n_next,
            &config.reed_solomon_codes[i + 1],
        );
        let cm_next = RecursiveLigeroCommitment { root: root_of(&wtns_next, m_next, n_next) };
        let ghost st_n = trace_next(config, st_e, i as nat);
        let ghost qn = fs_draw(fs_absorb(st_e.fs, cm_next.root@), (4 * config.dims@[i as int].0) as usize);
        proof {
            lemma_witness_root(wtns_next, st_e.f, m_next, n_next, config.reed_solomon_codes@[i + 1]);
            assert(st_n == trace_step(config, poly_v, (i + 1) as nat));
            assert(cm_next.root@ == st_n.roots.last());
            lemma_trace_ok(config, poly_v, (i + 1) as nat);
        }
        let ghost tr_cur = sumcheck_prover.transcript@;
        fs.absorb(cm_next.root.as_slice());
        proof.recursive_commitments.push(cm_next);
        let ghost roots_new = commitment_roots(proof.recursive_commitments@);
        proof {
            assert(agree_below(roots_start, roots_new, (i + 1) as int));
            assert(roots_new[i + 1] == cm_next.root@);
            lemma_fs_step_start_frame(
                initial_root,
                roots_start,
                roots_new,
                tr_start,
                tr_cur,
                config.initial_k as nat,
                config.ks@,
                (4 * m0) as usize,
                prover_rows(config),
                i as nat,
            );
            assert(prover_rows(config)[i as int] == wtns_prev.num_rows);
        }
        queries = match draw_sorted_queries(&mut fs, wtns_prev.num_rows, s) {
            Some(q) => q,
            None => {
                return None;
            },
        };
        proof {
            crate::ligerito_verifier::lemma_sorted_of(queries@, qn.0);
            assert((fs.spec_transcript(), fs.spec_counter()) == qn.1);
        }
        let alpha: F = match next_field::<F>(&mut fs) {
            Some(v) => v,
            None => {
                return None;
            },
        };
        let nv_f = sumcheck_prover.f.num_vars();
        let _ = sumcheck_prover.f.evals().len();
        proof {
            lemma_pow2_pos(nv_f as nat);
            lemma_pow2_is_pow2(nv_f as nat);
            if nv_f < log_n - config.initial_k {
                lemma_pow2_strictly_increases(nv_f as nat, (log_n - config.initial_k) as nat);
            }
        }
        let size = pow2_usize(nv_f);
        sks_vks = eval_sk_at_vks::<F>(size);
        proof {
            lemma_pow2_is_pow2(nv_f as nat);
            assert(log2(st_e.f.len()) == nv_f);
            assert(sks_vks@ =~= sks_seq::<F>(nv_f as nat));
        }
        let bi_len = config.reed_solomon_codes[i].block_length();
        opened_rows = open_rows(&wtns_prev, &queries);
        proof {
            lemma_merkle_tree_shape(
                views(wtns_prev.tree@),
                matrix_leaves(
                    wtns_prev.flat_mat@,
                    (4 * config.dims@[i as int].0) as nat,
                    config.dims@[i as int].1 as nat,
                ),
            );
        }
        mtree_proof = prove(&wtns_prev.tree, &queries);
        proof {
            assert(qn.0 == trace_queries(config, poly_v, i as nat));
            assert(rows_view(opened_rows@) =~= rows_at(
                wtns_prev.flat_mat@,
                queries@,
                (4 * config.dims@[i as int].0) as nat,
                config.dims@[i as int].1 as nat,
            ));
            assert(opens_commitment(
                opened_rows@,
                mtree_proof@,
                trace_step(config, poly_v, i as nat).start,
                config.dims@[i as int].0 as nat,
                config.dims@[i as int].1 as nat,
                config.reed_solomon_codes@[i as int],
                trace_queries(config, poly_v, i as nat),
            ));
        }
        proof {
            lemma_witness_opening(
                wtns_prev,
                config.dims@[i as int].0,
                config.dims@[i as int].1,
                queries@,
                opened_rows@,
                mtree_proof@,
                step_draw(
                    initial_root,
                    roots_new,
                    tr_cur,
                    config.initial_k as nat,
                    config.ks@,
                    (4 * m0) as usize,
                    prover_rows(config),
                    i as nat,
                ),
            );
        }
        proof {
            assert(crate::sumcheck_polys::rows_view(opened_rows@) =~= rows_at(
                commit_matrix(
                    st_e.start,
                    config.dims@[i as int].0 as nat,
                    config.dims@[i as int].1 as nat,
                    config.reed_solomon_codes@[i as int],
                ),
                sorted_of(qn.0),
                (4 * config.dims@[i as int].0) as nat,
                config.dims@[i as int].1 as nat,
            ));
        }
        let (basis_poly, enforced_sum) = induce_sumcheck_poly(nv_f, &sks_vks, &opened_rows, &rs, &queries, alpha);
        proof.recursive_proofs.push(RecursiveLigeroProof { opened_rows, merkle_proof: mtree_proof });
        let bi = MultiLinearPoly::new(basis_poly);
        let ghost bs_before = polys_view(sumcheck_prover.basis_polys@);
        let gl_i = match sumcheck_prover.introduce_new(bi, enforced_sum) {
            Some(e) => e,
            None => {
                return None;
            },
        };
        fs.absorb(gl_i.to_bytes().as_slice());
        proof {
            assert(gl_i == QuadraticEvals {
                e0: st_n.tr.last().0,
                e1: st_n.tr.last().1,
                e2: st_n.tr.last().2,
            });
        }
        let beta: F = match next_field::<F>(&mut fs) {
            Some(v) => v,
            None => {
                return None;
            },
        };
        sumcheck_prover.glue(beta);
        proof {
            assert forall|j: int| 0 <= j < i + 1 implies #[trigger] opens_commitment(
                proof.recursive_proofs@[j].opened_rows@,
                proof.recursive_proofs@[j].merkle_proof@,
                trace_step(config, poly_v, j as nat).start,
                config.dims@[j].0 as nat,
                config.dims@[j].1 as nat,
                config.reed_solomon_codes@[j],
                trace_queries(config, poly_v, j as nat),
            ) by {
                if j < i {
                    assert(opens_commitment(
                        proof.recursive_proofs@[j].opened_rows@,
                        proof.recursive_proofs@[j].merkle_proof@,
                        trace_step(config, poly_v, j as nat).start,
                        config.dims@[j].0 as nat,
                        config.dims@[j].1 as nat,
                        config.reed_solomon_codes@[j],
                        trace_queries(config, poly_v, j as nat),
                    ));
                }
            }
            assert(prover_matches(
                sumcheck_prover,
                (fs.spec_transcript(), fs.spec_counter()),
                commitment_roots(proof.recursive_commitments@),
                st_n,
            )) by {
                assert(polys_view(sumcheck_prover.basis_polys@) =~= st_n.bs);
                assert(sumcheck_prover.f@ == st_n.f);
                assert(sumcheck_prover.transcript@ == st_n.tr);
                assert((fs.spec_transcript(), fs.spec_counter()) == st_n.fs);
                assert(commitment_roots(proof.recursive_commitments@) =~= st_n.roots);
                assert(st_n.ok);
                assert(st_n.sums);
            }
        }
        proof {
            let tr_new = sumcheck_prover.transcript@;
            let at = step_entry(config.ks@, (i + 1) as nat) - 1;
            lemma_ks_sum_step(config.ks@, i as nat);
            assert(tr_new == tr_cur.push(triple(gl_i)));
            assert(gl_i == QuadraticEvals { e0: tr_new[at].0, e1: tr_new[at].1, e2: tr_new[at].2 });
            assert(roots_new == commitment_roots(proof.recursive_commitments@));
            assert((fs.spec_transcript(), fs.spec_counter()) == fs_step_start(
                initial_root,
                roots_new,
                tr_new,
                config.initial_k as nat,
                config.ks@,
                (4 * m0) as usize,
                prover_rows(config),
                (i + 1) as nat,
            )) by {
                lemma_fs_step_start_frame(
                    initial_root,
                    roots_start,
                    roots_new,
                    tr_start,
                    tr_new,
                    config.initial_k as nat,
                    config.ks@,
                    (4 * m0) as usize,
                    prover_rows(config),
                    i as nat,
                );
                lemma_fs_folds_frame(st_i, tr_cur, tr_new, step_entry(config.ks@, i as nat), k_i as nat);
            }
            lemma_openings_frame(
                proof.recursive_commitments@,
                proof.recursive_proofs@,
                config,
                initial_root,
                (4 * m0) as usize,
                roots_start,
                roots_new,
                tr_cur,
                tr_new,
                i as nat,
            );
        }
        proof {
            assert(all_num_vars(sumcheck_prover.basis_polys@, sumcheck_prover.f.spec_num_vars())) by {
                assert forall|t: int| 0 <= t < sumcheck_prover.basis_polys@.len() implies #[trigger] sumcheck_prover.basis_polys@[t].spec_num_vars()
                    == sumcheck_prover.f.spec_num_vars() by {
                }
            }
        }
        wtns_prev = wtns_next;
        i = i + 1;
    }
    None
}

/// The rounds keep the roots and the round values already recorded.
proof fn lemma_rounds_keep<F: BinaryField>(st: ProverTrace<F>, j: nat)
    ensures
        trace_rounds(st, j).roots == st.roots,
        trace_rounds(st, j).tr.len() == st.tr.len() + j,
        forall|k: int| 0 <= k < st.tr.len() ==> #[trigger] trace_rounds(st, j).tr[k] == st.tr[k],
    decreases j,
{
    if j > 0 {
        lemma_rounds_keep(st, (j - 1) as nat);
    }
}

/// Every later state keeps the first later root and the first round values.
proof fn lemma_step_keep<F: BinaryField>(config: ProverConfig<F>, poly: Seq<F>, i: nat)
    ensures
        trace_step(config, poly, i).roots.len() >= 1,
        trace_step(config, poly, i).roots[0] == trace_initial(config, poly).roots[0],
        trace_step(config, poly, i).tr.len() >= 1,
        trace_step(config, poly, i).tr[0] == trace_initial(config, poly).tr[0],
    decreases i,
{
    if i > 0 {
        let j = (i - 1) as nat;
        lemma_step_keep(config, poly, j);
        lemma_rounds_keep(trace_step(config, poly, j), config.ks@[j as int] as nat);
    }
}

/// An honest proof passes the verifier's checks before the first step: the
/// first opening is drawn at the same queries and passes the Merkle check,
/// its rows have the right shape, and the first round values add up to the
/// sum that the rows enforce.
pub proof fn lemma_honest_initial_accepts<F: BinaryField>(
    pc: ProverConfig<F>,
    vc: VerifierConfig,
    poly: Seq<F>,
    p: FinalizedLigeritoProof<F>,
)
    requires
        configs_match(pc, vc),
        is_pow2(poly.len()),
        prover_config_ok(pc, log2(poly.len())),
        prover_succeeds(pc, poly),
        is_prover_output(pc, poly, p),
    ensures
        initial_accepts(vc, p),
{
    let st0 = trace_initial(pc, poly);
    let stf = trace_final(pc, poly);
    let last = (pc.recursive_steps - 1) as nat;
    lemma_step_keep(pc, poly, last);
    lemma_rounds_keep(trace_step(pc, poly, last), pc.ks@[last as int] as nat);
    lemma_trace_ok(pc, poly, 0);
    assert(stf.roots[0] == st0.roots[0]);
    assert(commitment_roots(p.recursive_commitments@)[0] == p.recursive_commitments@[0].root@);
    assert(p.recursive_commitments@[0].root@ == st0.roots[0]);
    assert(p.sumcheck_transcript.tr@[0] == st0.tr[0]);
    lemma_pow2_is_pow2((vc.initial_dim + 2) as nat);
    let q = initial_query_state(vc, p);
    assert(initial_challenges::<F>(vc, p) =~= trace_rs0(pc, poly));
    assert(q.0 == trace_initial_queries(pc, poly));
    let rows = p.initial_ligero_proof.opened_rows@;
    assert(opening_at(
        p.initial_ligero_cm.root@,
        p.initial_ligero_proof.merkle_proof@,
        (vc.initial_dim + 2) as nat,
        rows,
        q.0,
    ));
    let qs = choose|qs: Seq<usize>|
        {
            &&& qs.len() == NUM_QUERIES
            &&& strictly_increasing(qs)
            &&& qs.to_multiset() == q.0.to_multiset()
            &&& #[trigger] spec_verify(
                p.initial_ligero_cm.root@,
                views(p.initial_ligero_proof.merkle_proof@),
                (vc.initial_dim + 2) as nat,
                rows_bytes(rows),
                qs,
            )
        };
    crate::ligerito_verifier::lemma_sorted_of(qs, q.0);
    assert(rows_view(rows) == rows_at(
        commit_matrix(poly, pc.initial_dims.0 as nat, pc.initial_dims.1 as nat, pc.initial_reed_solomon),
        sorted_of(q.0),
        (4 * pc.initial_dims.0) as nat,
        pc.initial_dims.1 as nat,
    ));
    assert forall|t: int| 0 <= t < rows.len() implies (#[trigger] rows[t])@.len() == pow2(vc.initial_k as nat) by {
        assert(rows_view(rows)[t] == rows[t]@);
    }
}

/// `a` is a prefix of `b`.
pub open spec fn is_prefix<A>(a: Seq<A>, b: Seq<A>) -> bool {
    &&& a.len() <= b.len()
    &&& forall|k: int| 0 <= k < a.len() ==> a[k] == #[trigger] b[k]
}

/// The polynomial, the basis polynomials and the records of a state of
/// `2^n` values.
spec fn trace_shaped<F: BinaryField>(st: ProverTrace<F>, n: nat) -> bool {
    &&& st.f.len() == pow2(n)
    &&& st.bs.len() >= 1
    &&& forall|t: int| 0 <= t < st.bs.len() ==> (#[trigger] st.bs[t]).len() == st.f.len()
}

/// Rounds halve the values, keep the shape, and only append round values.
proof fn lemma_rounds_shape<F: BinaryField>(st: ProverTrace<F>, j: nat, n: nat)
    requires
        trace_shaped(st, n),
        j <= n,
    ensures
        trace_shaped(trace_rounds(st, j), (n - j) as nat),
        trace_rounds(st, j).bs.len() == st.bs.len(),
        trace_rounds(st, j).tr.len() == st.tr.len() + j,
        is_prefix(st.tr, trace_rounds(st, j).tr),
        trace_rounds(st, j).roots == st.roots,
        trace_rounds(st, j).start == st.start,
    decreases j,
{
    if j > 0 {
        let j1 = (j - 1) as nat;
        lemma_rounds_shape(st, j1, n);
        let s1 = trace_rounds(st, j1);
        let r = fs_challenge::<F>(s1.fs);
        lemma_partial_eval_len(s1.f, seq![r], (n - j1) as nat);
        let s2 = trace_rounds(st, j);
        assert forall|t: int| 0 <= t < s2.bs.len() implies (#[trigger] s2.bs[t]).len() == s2.f.len() by {
            lemma_partial_eval_len(s1.bs[t], seq![r], (n - j1) as nat);
        }
    }
}

/// Later rounds extend the round values of earlier ones.
proof fn lemma_rounds_extend<F: BinaryField>(st: ProverTrace<F>, a: nat, b: nat)
    requires
        a <= b,
    ensures
        is_prefix(trace_rounds(st, a).tr, trace_rounds(st, b).tr),
        is_prefix(trace_rounds(st, a).roots, trace_rounds(st, b).roots),
    decreases b,
{
    if a < b {
        lemma_rounds_extend(st, a, (b - 1) as nat);
    }
}

/// The shape of the state at the start of step `i`.
proof fn lemma_step_shape<F: BinaryField>(config: ProverConfig<F>, poly: Seq<F>, i: nat)
    requires
        is_pow2(poly.len()),
        prover_config_ok(config, log2(poly.len())),
        i < config.recursive_steps,
    ensures
        trace_shaped(trace_step(config, poly, i), vars_before_step(config, log2(poly.len()), i) as nat),
        trace_step(config, poly, i).tr.len() == step_entry(config.ks@, i),
        trace_step(config, poly, i).roots.len() == i + 1,
    decreases i,
{
    let log_n = log2(poly.len());
    lemma_is_pow2_log2(poly.len());
    if i == 0 {
        let st = trace_initial(config, poly);
        lemma_partial_eval_len(poly, trace_rs0(config, poly), log_n);
        lemma_pow2_is_pow2((log_n - config.initial_k) as nat);
        assert(vars_before_step(config, log_n, 0) == log_n - config.initial_k);
    } else {
        let j = (i - 1) as nat;
        lemma_step_shape(config, poly, j);
        let nv = vars_before_step(config, log_n, j) as nat;
        assert(config.ks@[j as int] >= 1 && nv - config.ks@[j as int] >= 1);
        let st = trace_step(config, poly, j);
        lemma_rounds_shape(st, config.ks@[j as int] as nat, nv);
        lemma_ks_sum_step(config.ks@, j);
        let se = trace_rounds(st, config.ks@[j as int] as nat);
        lemma_pow2_is_pow2((nv - config.ks@[j as int]) as nat);
        let s2 = trace_step(config, poly, i);
        assert(vars_before_step(config, log_n, i) == nv - config.ks@[j as int]);
        assert forall|t: int| 0 <= t < s2.bs.len() implies (#[trigger] s2.bs[t]).len() == s2.f.len() by {
            if t < se.bs.len() {
                assert(s2.bs[t] == se.bs[t]);
            }
        }
    }
}

/// The final round values and roots extend those of every earlier state.
proof fn lemma_final_extends<F: BinaryField>(config: ProverConfig<F>, poly: Seq<F>, i: nat, j: nat)
    requires
        i < config.recursive_steps,
        j <= config.ks@[i as int],
    ensures
        is_prefix(trace_rounds(trace_step(config, poly, i), j).tr, trace_final(config, poly).tr),
        is_prefix(trace_rounds(trace_step(config, poly, i), j).roots, trace_final(config, poly).roots),
    decreases config.recursive_steps - i,
{
    let st = trace_step(config, poly, i);
    let k = config.ks@[i as int] as nat;
    lemma_rounds_extend(st, j, k);
    if i + 1 < config.recursive_steps {
        lemma_final_extends(config, poly, i + 1, 0);
        let se = trace_rounds(st, k);
        let s2 = trace_step(config, poly, i + 1);
        assert(is_prefix(se.tr, s2.tr));
        assert(is_prefix(se.roots, s2.roots));
    }
}

/// The transcript state at the start of step `i`, replayed from the
/// proof's final roots and round values.
pub open spec fn trace_vstart<F: BinaryField>(config: ProverConfig<F>, poly: Seq<F>, i: nat) -> FsState {
    fs_step_start(
        trace_root0(config, poly),
        trace_final(config, poly).roots,
        trace_final(config, poly).tr,
        config.initial_k as nat,
        config.ks@,
        (4 * config.initial_dims.0) as usize,
        prover_rows(config),
        i,
    )
}

/// The rounds' transcript states are the replayed ones.
proof fn lemma_rounds_fs<F: BinaryField>(st: ProverTrace<F>, j: nat, tr: Seq<(F, F, F)>)
    requires
        is_prefix(trace_rounds(st, j).tr, tr),
    ensures
        trace_rounds(st, j).fs == fs_folds(st.fs, tr, st.tr.len() as int, j),
    decreases j,
{
    if j > 0 {
        let j1 = (j - 1) as nat;
        lemma_rounds_extend(st, j1, j);
        lemma_rounds_keep(st, j);
        lemma_rounds_keep(st, j1);
        assert(is_prefix(trace_rounds(st, j1).tr, tr));
        lemma_rounds_fs(st, j1, tr);
        let at = st.tr.len() + j - 1;
        assert(tr[at] == trace_rounds(st, j).tr[at]);
    }
}

/// The prover's transcript state at the start of each step is the one the
/// proof's roots and round values replay.
proof fn lemma_fs_match<F: BinaryField>(config: ProverConfig<F>, poly: Seq<F>, i: nat)
    requires
        is_pow2(poly.len()),
        prover_config_ok(config, log2(poly.len())),
        i < config.recursive_steps,
    ensures
        trace_step(config, poly, i).fs == trace_vstart(config, poly, i),
        forall|j: nat|
            j <= config.ks@[i as int] ==> #[trigger] trace_rounds(trace_step(config, poly, i), j).fs == fs_folds(
                trace_vstart(config, poly, i),
                trace_final(config, poly).tr,
                step_entry(config.ks@, i),
                j,
            ),
    decreases i,
{
    let fin = trace_final(config, poly);
    lemma_step_shape(config, poly, i);
    lemma_final_extends(config, poly, i, 0);
    if i == 0 {
        lemma_step_keep(config, poly, 0);
        let last = (config.recursive_steps - 1) as nat;
        lemma_step_keep(config, poly, last);
        lemma_rounds_keep(trace_step(config, poly, last), config.ks@[last as int] as nat);
        assert(fin.roots[0] == trace_initial(config, poly).roots[0]);
        assert(fin.tr[0] == trace_initial(config, poly).tr[0]);
    } else {
        let j = (i - 1) as nat;
        lemma_fs_match(config, poly, j);
        lemma_step_shape(config, poly, j);
        let k = config.ks@[j as int] as nat;
        let st = trace_step(config, poly, j);
        lemma_final_extends(config, poly, j, k);
        lemma_rounds_keep(st, k);
        lemma_ks_sum_step(config.ks@, j);
        let se = trace_rounds(st, k);
        assert(se.fs == fs_folds(trace_vstart(config, poly, j), fin.tr, step_entry(config.ks@, j), k));
        let s2 = trace_step(config, poly, i);
        assert(s2.roots[i as int] == fin.roots[i as int]);
        assert(s2.tr[step_entry(config.ks@, i) - 1] == fin.tr[step_entry(config.ks@, i) - 1]);
        assert(prover_rows(config)[j as int] == (4 * config.dims@[j as int].0) as usize);
    }
    assert forall|jj: nat| jj <= config.ks@[i as int] implies #[trigger] trace_rounds(trace_step(config, poly, i), jj).fs
        == fs_folds(trace_vstart(config, poly, i), fin.tr, step_entry(config.ks@, i), jj) by {
        lemma_final_extends(config, poly, i, jj);
        lemma_rounds_fs(trace_step(config, poly, i), jj, fin.tr);
    }
}

/// The parts of a proof that the verifier replays its transcript from are
/// those of the prover's run.
pub open spec fn replays_run<F: BinaryField>(pc: ProverConfig<F>, poly: Seq<F>, p: FinalizedLigeritoProof<F>) -> bool {
    &&& p.initial_ligero_cm.root@ == trace_root0(pc, poly)
    &&& commitment_roots(p.recursive_commitments@) == trace_final(pc, poly).roots
    &&& p.sumcheck_transcript.tr@ == trace_final(pc, poly).tr
}

/// The verifier replays the prover's transcript states: with matching
/// parameters, its state before round `j` of step `i` of an honest proof is
/// the prover's.
proof fn lemma_replay_matches<F: BinaryField>(
    pc: ProverConfig<F>,
    vc: VerifierConfig,
    poly: Seq<F>,
    p: FinalizedLigeritoProof<F>,
    i: nat,
)
    requires
        configs_match(pc, vc),
        is_pow2(poly.len()),
        prover_config_ok(pc, log2(poly.len())),
        replays_run(pc, poly, p),
        i < pc.recursive_steps,
    ensures
        vstart(vc, p, i) == trace_vstart(pc, poly, i),
        forall|j: nat|
            j <= pc.ks@[i as int] ==> #[trigger] vfolds(vc, p, i, j) == trace_rounds(trace_step(pc, poly, i), j).fs,
{
    lemma_prover_draws_are_verifier_draws(pc, vc, seq![], seq![], Seq::<(F, F, F)>::empty(), seq![]);
    lemma_fs_match(pc, poly, i);
}

/// At the start of a later step, the verifier's running polynomial is the
/// quadratic through the prover's round values against the glued basis.
proof fn lemma_running_at_glue<F: BinaryField>(
    pc: ProverConfig<F>,
    vc: VerifierConfig,
    poly: Seq<F>,
    p: FinalizedLigeritoProof<F>,
    i: nat,
)
    requires
        configs_match(pc, vc),
        is_pow2(poly.len()),
        prover_config_ok(pc, log2(poly.len())),
        replays_run(pc, poly, p),
        0 < i < pc.recursive_steps,
    ensures
        running_before(vc, p, i, 0) == round_poly(
            spec_eval_01x(trace_step(pc, poly, i).f, trace_step(pc, poly, i).bs, spec_three::<F>()),
        ),
{
    let log_n = log2(poly.len());
    let st = trace_step(pc, poly, i);
    let i1 = (i - 1) as nat;
    let k1 = pc.ks@[i1 as int] as nat;
    let s_prev = trace_step(pc, poly, i1);
    let se = trace_rounds(s_prev, k1);
    let nv1 = vars_before_step(pc, log_n, i1) as nat;
    lemma_step_shape(pc, poly, i1);
    lemma_rounds_shape(s_prev, k1, nv1);
    lemma_rounds_keep(s_prev, k1);
    lemma_ks_sum_step(pc.ks@, i1);
    lemma_replay_matches(pc, vc, poly, p, i1);
    lemma_final_extends(pc, poly, i1, k1);
    lemma_final_extends(pc, poly, i, 0);
    let ent = step_entry(pc.ks@, i);
    assert(se.tr.len() == ent - 1);
    let mp = pc.dims@[i1 as int];
    let mn = pc.dims@[i as int];
    let root = commit_root(se.f, mn.0 as nat, mn.1 as nat, pc.reed_solomon_codes@[i as int]);
    assert(st.roots[i as int] == root);
    assert(commitment_roots(p.recursive_commitments@)[i as int] == root);
    let q = fs_draw(fs_absorb(se.fs, root), (4 * mp.0) as usize);
    let qs = sorted_of(q.0);
    let b = spec_induced_basis(
        log2(se.f.len()),
        sks_seq::<F>(log2(se.f.len())),
        qs,
        fs_challenge::<F>(q.1),
        NUM_QUERIES as nat,
    );
    let g = spec_eval_013_product(se.f, b);
    let fs2 = fs_absorb(fs_squeeze(q.1), round_bytes(g));
    let beta = fs_challenge::<F>(fs2);
    assert(p.sumcheck_transcript.tr@[ent - 1] == st.tr[ent - 1]);
    assert(st.tr[ent - 1] == g);
    assert(beta_state(vc, p, i1) == fs2);
    assert(p.sumcheck_transcript.tr@[ent - 2] == se.tr[ent - 2]);
    assert(se == trace_fold(trace_rounds(s_prev, (k1 - 1) as nat)));
    assert(se.tr[ent - 2] == spec_eval_01x(se.f, se.bs, spec_three::<F>()));
    lemma_pow2_is_pow2((nv1 - k1) as nat);
    lemma_running_glue(se.f, se.bs, b, beta);
    assert(st.bs == se.bs.push(spec_scaled(b, beta)));
}

/// Before round `j` of step `i`, the verifier's running polynomial is the
/// quadratic through the prover's current round values.
proof fn lemma_running_matches<F: BinaryField>(
    pc: ProverConfig<F>,
    vc: VerifierConfig,
    poly: Seq<F>,
    p: FinalizedLigeritoProof<F>,
    i: nat,
    j: nat,
)
    requires
        configs_match(pc, vc),
        is_pow2(poly.len()),
        prover_config_ok(pc, log2(poly.len())),
        replays_run(pc, poly, p),
        i < pc.recursive_steps,
        j <= pc.ks@[i as int],
    ensures
        running_before(vc, p, i, j) == round_poly(
            spec_eval_01x(trace_rounds(trace_step(pc, poly, i), j).f, trace_rounds(trace_step(pc, poly, i), j).bs, spec_three::<F>()),
        ),
{
    let st = trace_step(pc, poly, i);
    let sj = trace_rounds(st, j);
    lemma_step_shape(pc, poly, i);
    if j > 0 {
        lemma_final_extends(pc, poly, i, j);
        lemma_rounds_keep(st, j);
        let at = step_entry(pc.ks@, i) + j;
        assert(p.sumcheck_transcript.tr@[at - 1] == sj.tr[at - 1]);
        assert(sj == trace_fold(trace_rounds(st, (j - 1) as nat)));
    } else if i == 0 {
        let s0 = trace_initial(pc, poly);
        lemma_step_shape(pc, poly, 0);
        let nv0 = vars_before_step(pc, log2(poly.len()), 0) as nat;
        assert(pc.ks@[0] >= 1 && nv0 - pc.ks@[0] >= 1);
        lemma_pow2_unfold(nv0);
        lemma_pow2_pos((nv0 - 1) as nat);
        lemma_running_start(s0.f, s0.bs[0]);
        assert(s0.bs =~= seq![s0.bs[0]]);
        lemma_final_extends(pc, poly, 0, 0);
    } else {
        lemma_running_at_glue(pc, vc, poly, p, i);
    }
}

/// Round `j` of step `i` of an honest proof passes the verifier's check.
proof fn lemma_honest_round<F: BinaryField>(
    pc: ProverConfig<F>,
    vc: VerifierConfig,
    poly: Seq<F>,
    p: FinalizedLigeritoProof<F>,
    i: nat,
    j: nat,
)
    requires
        configs_match(pc, vc),
        is_pow2(poly.len()),
        prover_config_ok(pc, log2(poly.len())),
        prover_succeeds(pc, poly),
        replays_run(pc, poly, p),
        i < pc.recursive_steps,
        j < pc.ks@[i as int],
    ensures
        round_ok(vc, p, i, j),
{
    let log_n = log2(poly.len());
    let st = trace_step(pc, poly, i);
    let sj = trace_rounds(st, j);
    let sj1 = trace_rounds(st, j + 1);
    let nv = vars_before_step(pc, log_n, i) as nat;
    lemma_replay_matches(pc, vc, poly, p, i);
    assert(vfolds(vc, p, i, j) == sj.fs);
    if !sj1.ok {
        lemma_fails_at(pc, poly, i, j + 1);
    }
    lemma_step_shape(pc, poly, i);
    lemma_rounds_shape(st, j, nv);
    lemma_rounds_keep(st, j + 1);
    lemma_final_extends(pc, poly, i, j + 1);
    let at = step_entry(pc.ks@, i) + j;
    assert(p.sumcheck_transcript.tr@[at] == sj1.tr[at]);
    let r = fs_challenge::<F>(sj.fs);
    lemma_running_fold(sj.f, sj.bs, (nv - j) as nat, r);
    lemma_running_matches(pc, vc, poly, p, i, j);
}

/// Every sumcheck round of an honest proof passes the verifier's check: the
/// round values the prover records after fixing each challenge add up to
/// the verifier's running polynomial at it, across the steps' folds and the
/// gluing of each new basis polynomial.
pub proof fn lemma_honest_rounds_accepted<F: BinaryField>(
    pc: ProverConfig<F>,
    vc: VerifierConfig,
    poly: Seq<F>,
    p: FinalizedLigeritoProof<F>,
)
    requires
        configs_match(pc, vc),
        is_pow2(poly.len()),
        prover_config_ok(pc, log2(poly.len())),
        prover_succeeds(pc, poly),
        is_prover_output(pc, poly, p),
    ensures
        forall|i: nat| i < vc.recursive_steps ==> #[trigger] rounds_ok(vc, p, i),
{
    assert(replays_run(pc, poly, p));
    assert forall|i: nat| i < vc.recursive_steps implies #[trigger] rounds_ok(vc, p, i) by {
        assert forall|j: nat| j < vc.ks@[i as int] implies #[trigger] round_ok(vc, p, i, j) by {
            lemma_honest_round(pc, vc, poly, p, i, j);
        }
    }
}

/// The challenges of the rounds so far are those squeezed from the rounds'
/// transcript states.
proof fn lemma_rounds_rs<F: BinaryField>(st: ProverTrace<F>, j: nat)
    ensures
        trace_rounds(st, j).rs == st.rs + Seq::new(j, |t: int| fs_challenge::<F>(trace_rounds(st, t as nat).fs)),
    decreases j,
{
    if j > 0 {
        lemma_rounds_rs(st, (j - 1) as nat);
        assert(trace_rounds(st, j).rs =~= st.rs + Seq::new(j, |t: int| fs_challenge::<F>(trace_rounds(st, t as nat).fs)));
    }
}

/// The queries drawn after the rounds of a step `i` that is not the last.
pub open spec fn trace_step_draw<F: BinaryField>(config: ProverConfig<F>, poly: Seq<F>, i: nat) -> (Seq<usize>, FsState) {
    let se = trace_rounds(trace_step(config, poly, i), config.ks@[i as int] as nat);
    let mn = config.dims@[i + 1 as int];
    let root = commit_root(se.f, mn.0 as nat, mn.1 as nat, config.reed_solomon_codes@[i + 1 as int]);
    fs_draw(fs_absorb(se.fs, root), (4 * config.dims@[i as int].0) as usize)
}

/// The verifier replays the end of a step `i` that is not the last: the
/// queries, the challenges, the introduced round values and the state the
/// separation challenge is squeezed from.
#[verifier::rlimit(100)]
proof fn lemma_step_replay<F: BinaryField>(
    pc: ProverConfig<F>,
    vc: VerifierConfig,
    poly: Seq<F>,
    p: FinalizedLigeritoProof<F>,
    i: nat,
)
    requires
        configs_match(pc, vc),
        is_pow2(poly.len()),
        prover_config_ok(pc, log2(poly.len())),
        replays_run(pc, poly, p),
        i + 1 < pc.recursive_steps,
    ensures
        step_query_state(vc, p, i) == trace_step_draw(pc, poly, i),
        trace_step_draw(pc, poly, i).0 == trace_queries(pc, poly, i),
        step_entry(pc.ks@, i + 1) - 1 < p.sumcheck_transcript.tr@.len(),
        p.sumcheck_transcript.tr@[step_entry(pc.ks@, i + 1) - 1] == trace_step(pc, poly, i + 1).tr[step_entry(pc.ks@, i + 1) - 1],
        beta_state(vc, p, i) == fs_absorb(
            fs_squeeze(trace_step_draw(pc, poly, i).1),
            round_bytes(trace_step(pc, poly, i + 1).tr[step_entry(pc.ks@, i + 1) - 1]),
        ),
{
    let log_n = log2(poly.len());
    let st = trace_step(pc, poly, i);
    let k = pc.ks@[i as int] as nat;
    let se = trace_rounds(st, k);
    let s2 = trace_step(pc, poly, i + 1);
    let nv = vars_before_step(pc, log_n, i) as nat;
    lemma_replay_matches(pc, vc, poly, p, i);
    lemma_step_shape(pc, poly, i);
    lemma_step_shape(pc, poly, i + 1);
    lemma_rounds_keep(st, k);
    lemma_ks_sum_step(pc.ks@, i);
    lemma_final_extends(pc, poly, i + 1, 0);
    lemma_prover_draws_are_verifier_draws(pc, vc, seq![], seq![], Seq::<(F, F, F)>::empty(), seq![]);
    let mn = pc.dims@[i + 1 as int];
    let root = commit_root(se.f, mn.0 as nat, mn.1 as nat, pc.reed_solomon_codes@[i + 1 as int]);
    assert(s2.roots[i + 1 as int] == root);
    assert(commitment_roots(p.recursive_commitments@)[i + 1 as int] == root);
}

/// The verifier replays the challenges of step `i`.
proof fn lemma_step_challenges<F: BinaryField>(
    pc: ProverConfig<F>,
    vc: VerifierConfig,
    poly: Seq<F>,
    p: FinalizedLigeritoProof<F>,
    i: nat,
)
    requires
        configs_match(pc, vc),
        is_pow2(poly.len()),
        prover_config_ok(pc, log2(poly.len())),
        replays_run(pc, poly, p),
        i < pc.recursive_steps,
    ensures
        vchallenges(vc, p, i) == trace_rounds(trace_step(pc, poly, i), pc.ks@[i as int] as nat).rs,
{
    let st = trace_step(pc, poly, i);
    let k = pc.ks@[i as int] as nat;
    lemma_replay_matches(pc, vc, poly, p, i);
    lemma_step_shape(pc, poly, i);
    lemma_rounds_rs(st, k);
    assert forall|t: int| 0 <= t < k implies #[trigger] vchallenges(vc, p, i)[t] == fs_challenge::<F>(trace_rounds(st, t as nat).fs) by {
        assert(vfolds(vc, p, i, t as nat) == trace_rounds(st, t as nat).fs);
    }
    assert(st.rs + Seq::new(k, |t: int| fs_challenge::<F>(trace_rounds(st, t as nat).fs)) =~= vchallenges(vc, p, i));
}

/// The opening of the matrix of a step `i` that is not the last, in an
/// honest proof, passes the verifier's Merkle check at the drawn queries,
/// and its rows have the shape the verifier checks.
proof fn lemma_step_opening<F: BinaryField>(
    pc: ProverConfig<F>,
    vc: VerifierConfig,
    poly: Seq<F>,
    p: FinalizedLigeritoProof<F>,
    i: nat,
)
    requires
        configs_match(pc, vc),
        is_pow2(poly.len()),
        prover_config_ok(pc, log2(poly.len())),
        is_prover_output(pc, poly, p),
        i + 1 < pc.recursive_steps,
        step_query_state(vc, p, i) == trace_step_draw(pc, poly, i),
        trace_step_draw(pc, poly, i).0 == trace_queries(pc, poly, i),
    ensures
        step_query_state(vc, p, i).0.len() >= NUM_QUERIES,
        spec_verify(
            p.recursive_commitments@[i as int].root@,
            views(p.recursive_proofs@[i as int].merkle_proof@),
            (vc.log_dims@[i as int] + 2) as nat,
            rows_bytes(p.recursive_proofs@[i as int].opened_rows@),
            sorted_of(step_query_state(vc, p, i).0),
        ),
        p.recursive_proofs@[i as int].opened_rows@.len() == NUM_QUERIES,
        rows_of_len(p.recursive_proofs@[i as int].opened_rows@, vc.ks@[i as int] as nat),
        rows_view(p.recursive_proofs@[i as int].opened_rows@) == rows_at(
            commit_matrix(
                trace_step(pc, poly, i).start,
                pc.dims@[i as int].0 as nat,
                pc.dims@[i as int].1 as nat,
                pc.reed_solomon_codes@[i as int],
            ),
            sorted_of(trace_queries(pc, poly, i)),
            (4 * pc.dims@[i as int].0) as nat,
            pc.dims@[i as int].1 as nat,
        ),
{
    lemma_prover_draws_are_verifier_draws(
        pc,
        vc,
        p.initial_ligero_cm.root@,
        commitment_roots(p.recursive_commitments@),
        p.sumcheck_transcript.tr@,
        seq![],
    );
    let q = step_query_state(vc, p, i);
    let rows = p.recursive_proofs@[i as int].opened_rows@;
    let drawn = step_draw(
        p.initial_ligero_cm.root@,
        commitment_roots(p.recursive_commitments@),
        p.sumcheck_transcript.tr@,
        pc.initial_k as nat,
        pc.ks@,
        (4 * pc.initial_dims.0) as usize,
        prover_rows(pc),
        i,
    );
    assert(drawn == q.0);
    assert(opening_at(
        p.recursive_commitments@[i as int].root@,
        p.recursive_proofs@[i as int].merkle_proof@,
        log2((4 * pc.dims@[i as int].0) as nat),
        rows,
        drawn,
    ));
    let qs = choose|qs: Seq<usize>|
        {
            &&& qs.len() == NUM_QUERIES
            &&& strictly_increasing(qs)
            &&& qs.to_multiset() == drawn.to_multiset()
            &&& #[trigger] spec_verify(
                p.recursive_commitments@[i as int].root@,
                views(p.recursive_proofs@[i as int].merkle_proof@),
                log2((4 * pc.dims@[i as int].0) as nat),
                rows_bytes(rows),
                qs,
            )
        };
    crate::ligerito_verifier::lemma_sorted_of(qs, q.0);
    broadcast use vstd::seq_lib::group_to_multiset_ensures;
    assert(qs.to_multiset().len() == q.0.to_multiset().len());
    assert(opens_commitment(
        rows,
        p.recursive_proofs@[i as int].merkle_proof@,
        trace_step(pc, poly, i).start,
        pc.dims@[i as int].0 as nat,
        pc.dims@[i as int].1 as nat,
        pc.reed_solomon_codes@[i as int],
        trace_queries(pc, poly, i),
    ));
    assert(rows_view(rows).len() == rows.len());
    assert forall|t: int| 0 <= t < rows.len() implies (#[trigger] rows[t])@.len() == pow2(vc.ks@[i as int] as nat) by {
        assert(rows_view(rows)[t] == rows[t]@);
    }
}

/// A step `i` of an honest proof that is not the last passes the verifier's
/// checks: its rounds, the opening of its matrix at the queries drawn after
/// the next root, the shape of the opened rows, the round values of the
/// introduced basis polynomial against the sum the rows enforce, and the
/// separation challenge.
#[verifier::rlimit(100)]
proof fn lemma_honest_step<F: BinaryField>(
    pc: ProverConfig<F>,
    vc: VerifierConfig,
    poly: Seq<F>,
    p: FinalizedLigeritoProof<F>,
    i: nat,
)
    requires
        configs_match(pc, vc),
        is_pow2(poly.len()),
        prover_config_ok(pc, log2(poly.len())),
        prover_succeeds(pc, poly),
        is_prover_output(pc, poly, p),
        i + 1 < pc.recursive_steps,
    ensures
        step_accepts(vc, p, i),
{
    assert(replays_run(pc, poly, p));
    assert forall|j: nat| j < vc.ks@[i as int] implies #[trigger] round_ok(vc, p, i, j) by {
        lemma_honest_round(pc, vc, poly, p, i, j);
    }
    lemma_step_replay(pc, vc, poly, p, i);
    lemma_step_challenges(pc, vc, poly, p, i);
    lemma_step_opening(pc, vc, poly, p, i);
    lemma_trace_ok(pc, poly, i + 1);
    let st = trace_step(pc, poly, i);
    lemma_step_shape(pc, poly, i);
    lemma_rounds_shape(st, pc.ks@[i as int] as nat, vars_before_step(pc, log2(poly.len()), i) as nat);
}

/// The last opening of an honest proof passes the verifier's Merkle check
/// at the queries drawn after `yr`, and `yr` and the opened rows have the
/// shape the verifier checks.
proof fn lemma_honest_final_opening<F: BinaryField>(
    pc: ProverConfig<F>,
    vc: VerifierConfig,
    poly: Seq<F>,
    p: FinalizedLigeritoProof<F>,
)
    requires
        configs_match(pc, vc),
        is_pow2(poly.len()),
        prover_config_ok(pc, log2(poly.len())),
        is_prover_output(pc, poly, p),
    ensures
        ({
            let last = (vc.recursive_steps - 1) as nat;
            let yr = p.final_ligero_proof.yr@;
            let f = vfolds(vc, p, last, vc.ks@[last as int] as nat);
            let q = fs_draw(fs_absorb(f, elems_bytes(yr)), verifier_rows(vc)[last as int]);
            &&& q.0.len() >= NUM_QUERIES
            &&& spec_verify(
                p.recursive_commitments@[last as int].root@,
                views(p.final_ligero_proof.merkle_proof@),
                (vc.log_dims@[last as int] + 2) as nat,
                rows_bytes(p.final_ligero_proof.opened_rows@),
                sorted_of(q.0),
            )
            &&& yr.len() >= 2
            &&& is_pow2(yr.len())
            &&& yr.len() < F::spec_order()
            &&& p.final_ligero_proof.opened_rows@.len() <= NUM_QUERIES
        }),
{
    let last = (vc.recursive_steps - 1) as nat;
    let log_n = log2(poly.len());
    lemma_prover_draws_are_verifier_draws(
        pc,
        vc,
        p.initial_ligero_cm.root@,
        commitment_roots(p.recursive_commitments@),
        p.sumcheck_transcript.tr@,
        elems_bytes(p.final_ligero_proof.yr@),
    );
    let yr = p.final_ligero_proof.yr@;
    let f = vfolds(vc, p, last, vc.ks@[last as int] as nat);
    let q = fs_draw(fs_absorb(f, elems_bytes(yr)), verifier_rows(vc)[last as int]);
    let drawn = final_draw(
        p.initial_ligero_cm.root@,
        commitment_roots(p.recursive_commitments@),
        p.sumcheck_transcript.tr@,
        pc.initial_k as nat,
        pc.ks@,
        (4 * pc.initial_dims.0) as usize,
        prover_rows(pc),
        last,
        elems_bytes(yr),
    );
    assert(drawn == q.0);
    let rows = p.final_ligero_proof.opened_rows@;
    let qs = choose|qs: Seq<usize>|
        {
            &&& qs.len() == NUM_QUERIES
            &&& strictly_increasing(qs)
            &&& qs.to_multiset() == drawn.to_multiset()
            &&& #[trigger] spec_verify(
                p.recursive_commitments@[last as int].root@,
                views(p.final_ligero_proof.merkle_proof@),
                log2((4 * pc.dims@[last as int].0) as nat),
                rows_bytes(rows),
                qs,
            )
        };
    crate::ligerito_verifier::lemma_sorted_of(qs, q.0);
    broadcast use vstd::seq_lib::group_to_multiset_ensures;
    assert(qs.to_multiset().len() == q.0.to_multiset().len());
    let nl = vars_before_step(pc, log_n, last);
    assert(pc.ks@[last as int] >= 1 && nl - pc.ks@[last as int] >= 1);
    lemma_ks_sum_step(pc.ks@, last);
    let nf = vars_before_step(pc, log_n, pc.recursive_steps as nat);
    assert(nf == nl - pc.ks@[last as int]);
    lemma_ks_sum_mono(pc.ks@, 0, pc.recursive_steps as nat);
    assert(nf <= log_n - pc.initial_k);
    lemma_pow2_is_pow2(nf as nat);
    lemma_pow2_unfold(nf as nat);
    lemma_pow2_pos((nf - 1) as nat);
    if nf < log_n - pc.initial_k {
        lemma_pow2_strictly_increases(nf as nat, (log_n - pc.initial_k) as nat);
    }
}

/// A proof that the prover gives passes every check of the verifier with
/// matching parameters but three at the very end (the row check of the last
/// opened rows against `yr`, the squeeze of the last challenge, and the
/// final partial sumcheck claim): the first opening and sum; for every step
/// but the last its rounds, its opening, the shape of its rows, the sum its
/// rows enforce and its separation challenge; the rounds of the last step,
/// its opening at the queries drawn after `yr`, and the shape of `yr` and of
/// the last rows.
pub proof fn lemma_honest_proof_checks<F: BinaryField>(
    pc: ProverConfig<F>,
    vc: VerifierConfig,
    poly: Seq<F>,
    p: FinalizedLigeritoProof<F>,
)
    requires
        configs_match(pc, vc),
        is_pow2(poly.len()),
        prover_config_ok(pc, log2(poly.len())),
        prover_succeeds(pc, poly),
        is_prover_output(pc, poly, p),
    ensures
        initial_accepts(vc, p),
        forall|i: nat| i + 1 < vc.recursive_steps ==> #[trigger] step_accepts(vc, p, i),
        rounds_ok(vc, p, (vc.recursive_steps - 1) as nat),
        ({
            let last = (vc.recursive_steps - 1) as nat;
            let yr = p.final_ligero_proof.yr@;
            let f = vfolds(vc, p, last, vc.ks@[last as int] as nat);
            let q = fs_draw(fs_absorb(f, elems_bytes(yr)), verifier_rows(vc)[last as int]);
            &&& q.0.len() >= NUM_QUERIES
            &&& spec_verify(
                p.recursive_commitments@[last as int].root@,
                views(p.final_ligero_proof.merkle_proof@),
                (vc.log_dims@[last as int] + 2) as nat,
                rows_bytes(p.final_ligero_proof.opened_rows@),
                sorted_of(q.0),
            )
            &&& yr.len() >= 2
            &&& is_pow2(yr.len())
            &&& yr.len() < F::spec_order()
            &&& p.final_ligero_proof.opened_rows@.len() <= NUM_QUERIES
        }),
{
    lemma_honest_final_opening(pc, vc, poly, p);
    lemma_honest_initial_accepts(pc, vc, poly, p);
    assert forall|i: nat| i + 1 < vc.recursive_steps implies #[trigger] step_accepts(vc, p, i) by {
        lemma_honest_step(pc, vc, poly, p, i);
    }
    lemma_honest_rounds_accepted(pc, vc, poly, p);
    assert(rounds_ok(vc, p, (vc.recursive_steps - 1) as nat));
}

/// The challenges of the steps `a .. b` of the run, in order.
pub open spec fn trace_chals<F: BinaryField>(config: ProverConfig<F>, poly: Seq<F>, a: nat, b: nat) -> Seq<F>
    decreases b,
{
    if b <= a {
        Seq::empty()
    } else {
        trace_chals(config, poly, a, (b - 1) as nat) + trace_rounds(
            trace_step(config, poly, (b - 1) as nat),
            config.ks@[b - 1] as nat,
        ).rs
    }
}

/// A step starts with no challenges and with one basis polynomial per
/// opening so far.
proof fn lemma_step_start<F: BinaryField>(config: ProverConfig<F>, poly: Seq<F>, i: nat)
    ensures
        trace_step(config, poly, i).rs == Seq::<F>::empty(),
        trace_step(config, poly, i).bs.len() == i + 1,
    decreases i,
{
    if i > 0 {
        let j = (i - 1) as nat;
        lemma_step_start(config, poly, j);
        lemma_rounds_shape_len(trace_step(config, poly, j), config.ks@[j as int] as nat);
    }
}

/// Rounds keep the number of basis polynomials.
proof fn lemma_rounds_shape_len<F: BinaryField>(st: ProverTrace<F>, j: nat)
    ensures
        trace_rounds(st, j).bs.len() == st.bs.len(),
        trace_rounds(st, j).rs.len() == st.rs.len() + j,
    decreases j,
{
    if j > 0 {
        lemma_rounds_shape_len(st, (j - 1) as nat);
    }
}

/// Each basis polynomial of the run is the one introduced at its step,
/// fixed at every challenge drawn since.
proof fn lemma_trace_bs<F: BinaryField>(config: ProverConfig<F>, poly: Seq<F>, i: nat, j: nat)
    requires
        i < config.recursive_steps,
        j <= config.ks@[i as int],
    ensures
        trace_rounds(trace_step(config, poly, i), j).bs.len() == i + 1,
        forall|t: int|
            0 <= t <= i ==> #[trigger] trace_rounds(trace_step(config, poly, i), j).bs[t] == spec_partial_eval(
                trace_step(config, poly, t as nat).bs[t],
                trace_chals(config, poly, t as nat, i) + trace_rounds(trace_step(config, poly, i), j).rs,
            ),
    decreases i, j,
{
    let st = trace_step(config, poly, i);
    let s = trace_rounds(st, j);
    lemma_step_start(config, poly, i);
    lemma_rounds_shape_len(st, j);
    if j > 0 {
        let j1 = (j - 1) as nat;
        lemma_trace_bs(config, poly, i, j1);
        let s1 = trace_rounds(st, j1);
        let r = fs_challenge::<F>(s1.fs);
        assert forall|t: int| 0 <= t <= i implies #[trigger] s.bs[t] == spec_partial_eval(
            trace_step(config, poly, t as nat).bs[t],
            trace_chals(config, poly, t as nat, i) + s.rs,
        ) by {
            let a = trace_chals(config, poly, t as nat, i) + s1.rs;
            let x = trace_step(config, poly, t as nat).bs[t];
            crate::ligerito::lemma_partial_eval_one(s1.bs[t], r);
            crate::multilinear_poly::lemma_partial_eval_snoc(x, a, r);
            assert(a.push(r) =~= trace_chals(config, poly, t as nat, i) + s.rs);
        }
    } else if i > 0 {
        let i1 = (i - 1) as nat;
        let k1 = config.ks@[i1 as int] as nat;
        lemma_trace_bs(config, poly, i1, k1);
        let se = trace_rounds(trace_step(config, poly, i1), k1);
        assert forall|t: int| 0 <= t <= i implies #[trigger] s.bs[t] == spec_partial_eval(
            trace_step(config, poly, t as nat).bs[t],
            trace_chals(config, poly, t as nat, i) + s.rs,
        ) by {
            if t < i {
                assert(s.bs[t] == se.bs[t]);
                assert(trace_chals(config, poly, t as nat, i) + s.rs =~= trace_chals(config, poly, t as nat, i1) + se.rs);
            } else {
                assert(trace_chals(config, poly, t as nat, i) + s.rs =~= Seq::<F>::empty());
            }
        }
    } else {
        assert(trace_chals(config, poly, 0, 0) + s.rs =~= Seq::<F>::empty());
    }
}

/// The verifier's matrix sizes are the numbers of variables the prover has
/// left when it opens each matrix.
pub open spec fn dims_fit<F: BinaryField>(pc: ProverConfig<F>, vc: VerifierConfig, log_n: nat) -> bool {
    &&& vc.initial_dim == log_n - pc.initial_k
    &&& forall|i: int|
        0 <= i < pc.recursive_steps - 1 ==> #[trigger] vc.log_dims@[i] == vars_before_step(pc, log_n, (i + 1) as nat)
}

/// The verifier replays the challenges of the steps before step `n`.
proof fn lemma_challenges_replay<F: BinaryField>(
    pc: ProverConfig<F>,
    vc: VerifierConfig,
    poly: Seq<F>,
    p: FinalizedLigeritoProof<F>,
    n: nat,
)
    requires
        configs_match(pc, vc),
        is_pow2(poly.len()),
        prover_config_ok(pc, log2(poly.len())),
        replays_run(pc, poly, p),
        n <= pc.recursive_steps,
    ensures
        challenges_before(vc, p, n) == trace_chals(pc, poly, 0, n),
    decreases n,
{
    if n > 0 {
        lemma_challenges_replay(pc, vc, poly, p, (n - 1) as nat);
        lemma_step_challenges(pc, vc, poly, p, (n - 1) as nat);
    }
}

/// The first basis polynomial of an honest run is the one the verifier
/// induces from the first opening.
#[verifier::rlimit(50)]
proof fn lemma_basis_link_first<F: BinaryField>(
    pc: ProverConfig<F>,
    vc: VerifierConfig,
    poly: Seq<F>,
    p: FinalizedLigeritoProof<F>,
)
    requires
        configs_match(pc, vc),
        is_pow2(poly.len()),
        prover_config_ok(pc, log2(poly.len())),
        dims_fit(pc, vc, log2(poly.len())),
        replays_run(pc, poly, p),
        p.initial_ligero_proof.opened_rows@.len() == NUM_QUERIES,
    ensures
        trace_step(pc, poly, 0).bs[0] == basis_view(vc, p, 0),
{
    let log_n = log2(poly.len());
    let st0 = trace_initial(pc, poly);
    let last = (pc.recursive_steps - 1) as nat;
    lemma_step_keep(pc, poly, last);
    lemma_rounds_keep(trace_step(pc, poly, last), pc.ks@[last as int] as nat);
    assert(commitment_roots(p.recursive_commitments@)[0] == p.recursive_commitments@[0].root@);
    lemma_pow2_is_pow2((vc.initial_dim + 2) as nat);
    lemma_step_shape(pc, poly, 0);
    lemma_pow2_is_pow2((log_n - pc.initial_k) as nat);
    assert(initial_challenges::<F>(vc, p) =~= trace_rs0(pc, poly));
    assert(initial_query_state(vc, p) == fs_draw(
        fs_absorb(after_squeezes(spec_u32_to_le_bytes(1234) + trace_root0(pc, poly), 0, pc.initial_k as nat), st0.roots[0]),
        (4 * pc.initial_dims.0) as usize,
    ));
}

/// The basis polynomial introduced at a later step `t` of an honest run is
/// the one the verifier induces from the same opening, scaled by the
/// separation challenge.
#[verifier::rlimit(50)]
proof fn lemma_basis_link_later<F: BinaryField>(
    pc: ProverConfig<F>,
    vc: VerifierConfig,
    poly: Seq<F>,
    p: FinalizedLigeritoProof<F>,
    t: nat,
)
    requires
        configs_match(pc, vc),
        is_pow2(poly.len()),
        prover_config_ok(pc, log2(poly.len())),
        dims_fit(pc, vc, log2(poly.len())),
        replays_run(pc, poly, p),
        0 < t < pc.recursive_steps,
        p.recursive_proofs@[t - 1].opened_rows@.len() == NUM_QUERIES,
    ensures
        trace_step(pc, poly, t).bs[t as int] == spec_scaled(
            basis_view(vc, p, t),
            seps_upto(vc, p, (pc.recursive_steps - 1) as nat)[t as int],
        ),
{
    let log_n = log2(poly.len());
    let t1 = (t - 1) as nat;
    lemma_step_replay(pc, vc, poly, p, t1);
    lemma_step_shape(pc, poly, t1);
    lemma_step_shape(pc, poly, t);
    let st = trace_step(pc, poly, t1);
    let k1 = pc.ks@[t1 as int] as nat;
    let nv1 = vars_before_step(pc, log_n, t1) as nat;
    lemma_rounds_shape(st, k1, nv1);
    lemma_ks_sum_step(pc.ks@, t1);
    let se = trace_rounds(st, k1);
    lemma_pow2_is_pow2((nv1 - k1) as nat);
    assert(vars_before_step(pc, log_n, t) == nv1 - k1);
    assert(vc.log_dims@[t1 as int] == vars_before_step(pc, log_n, t));
    lemma_step_start(pc, poly, t1);
    lemma_rounds_shape_len(st, k1);
    assert(se.bs.len() == t);
}

/// The challenges of steps `a .. b` number `ks[a] + .. + ks[b - 1]`.
proof fn lemma_chals_len<F: BinaryField>(config: ProverConfig<F>, poly: Seq<F>, a: nat, b: nat)
    requires
        a <= b <= config.recursive_steps,
        config.ks@.len() >= config.recursive_steps,
    ensures
        trace_chals(config, poly, a, b).len() == ks_sum(config.ks@, b) - ks_sum(config.ks@, a),
    decreases b,
{
    if b > a {
        let b1 = (b - 1) as nat;
        lemma_chals_len(config, poly, a, b1);
        lemma_step_start(config, poly, b1);
        lemma_rounds_shape_len(trace_step(config, poly, b1), config.ks@[b1 as int] as nat);
        lemma_ks_sum_step(config.ks@, b1);
    }
}

/// The challenges of steps `a .. b` are those of `a .. m` then `m .. b`.
proof fn lemma_chals_split<F: BinaryField>(config: ProverConfig<F>, poly: Seq<F>, a: nat, m: nat, b: nat)
    requires
        a <= m <= b,
    ensures
        trace_chals(config, poly, a, b) == trace_chals(config, poly, a, m) + trace_chals(config, poly, m, b),
    decreases b,
{
    if b > m {
        let b1 = (b - 1) as nat;
        lemma_chals_split(config, poly, a, m, b1);
        let last = trace_rounds(trace_step(config, poly, b1), config.ks@[b1 as int] as nat).rs;
        assert(trace_chals(config, poly, a, m) + trace_chals(config, poly, m, b1) + last =~= trace_chals(config, poly, a, m)
            + (trace_chals(config, poly, m, b1) + last));
    } else {
        assert(trace_chals(config, poly, a, m) + Seq::<F>::empty() =~= trace_chals(config, poly, a, m));
    }
}

/// Fixing one more variable: `(s at X) at r` is `s at X + [r]`.
proof fn lemma_partial_eval_then<F: BinaryField>(s: Seq<F>, x: Seq<F>, r: F)
    ensures
        spec_partial_eval(spec_partial_eval(s, x), seq![r]) == spec_partial_eval(s, x.push(r)),
{
    crate::ligerito::lemma_partial_eval_one(spec_partial_eval(s, x), r);
    crate::multilinear_poly::lemma_partial_eval_snoc(s, x, r);
}

/// The facts about an honest proof that the final claim needs.
#[verifier::opaque]
pub open spec fn final_link_ok<F: BinaryField>(
    pc: ProverConfig<F>,
    vc: VerifierConfig,
    poly: Seq<F>,
    p: FinalizedLigeritoProof<F>,
) -> bool {
    &&& configs_match(pc, vc)
    &&& is_pow2(poly.len())
    &&& prover_config_ok(pc, log2(poly.len()))
    &&& dims_fit(pc, vc, log2(poly.len()))
    &&& replays_run(pc, poly, p)
    &&& p.initial_ligero_proof.opened_rows@.len() == NUM_QUERIES
    &&& forall|t: int| 0 <= t < pc.recursive_steps - 1 ==> (#[trigger] p.recursive_proofs@[t]).opened_rows@.len() == NUM_QUERIES
}

/// Each basis polynomial of an honest run, fixed at the last challenge `r`,
/// is the verifier's basis polynomial fixed at its part of the challenges
/// and `r`, scaled by its separation challenge (the first is not scaled).
#[verifier::rlimit(100)]
proof fn lemma_final_basis_term<F: BinaryField>(
    pc: ProverConfig<F>,
    vc: VerifierConfig,
    poly: Seq<F>,
    p: FinalizedLigeritoProof<F>,
    r: F,
    t: nat,
)
    requires
        final_link_ok(pc, vc, poly, p),
        t < pc.recursive_steps,
    ensures
        ({
            let steps = pc.recursive_steps as nat;
            let fin = trace_final(pc, poly);
            let bs = basis_upto(vc, p, steps);
            let ris = challenges_before(vc, p, steps).push(r);
            let k = (vars_before_step(pc, log2(poly.len()), steps) - 1) as nat;
            let n = log2(bs[t as int].len());
            &&& fin.bs.len() == steps
            &&& n == vars_before_step(pc, log2(poly.len()), t)
            &&& bs[t as int].len() == pow2(n)
            &&& ris.len() == ks_sum(pc.ks@, steps) + 1
            &&& k + 1 + ks_sum(pc.ks@, steps) == vars_before_step(pc, log2(poly.len()), 0)
            &&& t > 0 ==> n - k <= ris.len()
            &&& k < n
            &&& t == 0 ==> spec_partial_eval(fin.bs[0], seq![r]) == spec_partial_eval(bs[0], ris)
            &&& t > 0 ==> spec_partial_eval(fin.bs[t as int], seq![r]) == spec_scaled(
                spec_partial_eval(bs[t as int], ris.subrange(ris.len() - (n - k), ris.len() as int)),
                seps_upto(vc, p, (steps - 1) as nat)[t as int],
            )
        }),
{
    let log_n = log2(poly.len());
    let steps = pc.recursive_steps as nat;
    let last = (steps - 1) as nat;
    let kl = pc.ks@[last as int] as nat;
    let fin = trace_final(pc, poly);
    let bs = basis_upto(vc, p, steps);
    let ch = challenges_before(vc, p, steps);
    let ris = ch.push(r);
    reveal(final_link_ok);
    lemma_trace_bs(pc, poly, last, kl);
    lemma_challenges_replay(pc, vc, poly, p, steps);
    assert(trace_chals(pc, poly, t, last) + fin.rs == trace_chals(pc, poly, t, steps));
    let x = trace_chals(pc, poly, t, steps);
    let tt = trace_step(pc, poly, t).bs[t as int];
    lemma_partial_eval_then(tt, x, r);
    lemma_ks_sum_step(pc.ks@, last);
    let nf = vars_before_step(pc, log_n, steps);
    assert(pc.ks@[last as int] >= 1 && vars_before_step(pc, log_n, last) - pc.ks@[last as int] >= 1);
    let k = (nf - 1) as nat;
    if t == 0 {
        lemma_basis_link_first(pc, vc, poly, p);
        assert(bs[0] == basis_view(vc, p, 0));
        lemma_pow2_is_pow2(vc.initial_dim as nat);
    } else {
        let t1 = (t - 1) as nat;
        assert(p.recursive_proofs@[t1 as int].opened_rows@.len() == NUM_QUERIES);
        lemma_basis_link_later(pc, vc, poly, p, t);
        let beta = seps_upto(vc, p, last)[t as int];
        let b = basis_view(vc, p, t);
        crate::ligerito::lemma_partial_eval_scaled(b, x.push(r), beta);
        assert(vc.log_dims@[t1 as int] == vars_before_step(pc, log_n, t));
        lemma_pow2_is_pow2(vc.log_dims@[t1 as int] as nat);
        let n = log2(b.len());
        assert(n == vars_before_step(pc, log_n, t));
        lemma_chals_len(pc, poly, t, steps);
        lemma_chals_len(pc, poly, 0, t);
        lemma_chals_split(pc, poly, 0, t, steps);
        lemma_ks_sum_mono(pc.ks@, t, steps);
        assert(x.len() == n - nf);
        assert(ris.subrange(ris.len() - (n - k), ris.len() as int) =~= x.push(r));
    }
    lemma_chals_len(pc, poly, 0, steps);
    if t == 0 {
        assert(ch =~= x);
    }
}

/// The verifier's partial evaluation of the basis polynomials at all the
/// challenges and `r` is the sum of the prover's final basis polynomials
/// fixed at `r`.
#[verifier::rlimit(100)]
proof fn lemma_final_sum<F: BinaryField>(
    pc: ProverConfig<F>,
    vc: VerifierConfig,
    poly: Seq<F>,
    p: FinalizedLigeritoProof<F>,
    r: F,
    count: nat,
)
    requires
        final_link_ok(pc, vc, poly, p),
        1 <= count <= pc.recursive_steps,
    ensures
        ({
            let steps = pc.recursive_steps as nat;
            let fin = trace_final(pc, poly);
            eval_basis_partial_views(
                basis_upto(vc, p, steps),
                seps_upto(vc, p, (steps - 1) as nat),
                challenges_before(vc, p, steps).push(r),
                (vars_before_step(pc, log2(poly.len()), steps) - 1) as nat,
                count,
            ) == sum_seqs(Seq::new(steps, |t: int| spec_partial_eval(fin.bs[t], seq![r])), count)
            && sum_seqs(Seq::new(steps, |t: int| spec_partial_eval(fin.bs[t], seq![r])), count).len() == pow2(
                (vars_before_step(pc, log2(poly.len()), steps) - 1) as nat,
            )
        }),
    decreases count,
{
    let steps = pc.recursive_steps as nat;
    let fin = trace_final(pc, poly);
    let ss = Seq::new(steps, |t: int| spec_partial_eval(fin.bs[t], seq![r]));
    let i = (count - 1) as nat;
    lemma_final_basis_term(pc, vc, poly, p, r, i);
    if count == 1 {
        lemma_final_basis_term(pc, vc, poly, p, r, 0);
        let bs = basis_upto(vc, p, steps);
        let ris = challenges_before(vc, p, steps).push(r);
        crate::multilinear_poly::lemma_partial_eval_len(bs[0], ris, log2(bs[0].len()));
    }
    if count > 1 {
        lemma_final_sum(pc, vc, poly, p, r, i);
        let bs = basis_upto(vc, p, steps);
        let seps = seps_upto(vc, p, (steps - 1) as nat);
        let ris = challenges_before(vc, p, steps).push(r);
        let k = (vars_before_step(pc, log2(poly.len()), steps) - 1) as nat;
        let n = log2(bs[i as int].len());
        let bi = spec_partial_eval(bs[i as int], ris.subrange(ris.len() - (n - k), ris.len() as int));
        let prev = sum_seqs(ss, i);
        let sc = spec_scaled(bi, seps[i as int]);
        assert(ss[i as int] == sc);
        crate::multilinear_poly::lemma_partial_eval_len(bs[i as int], ris.subrange(ris.len() - (n - k), ris.len() as int), n);
        assert(bi.len() == pow2(k));
        assert forall|t: int| 0 <= t < prev.len() implies F::spec_add(prev[t], ss[i as int][t]) == F::spec_add(
            prev[t],
            F::spec_mul(seps[i as int], bi[t]),
        ) by {
            assert(ss[i as int][t] == sc[t]);
            F::lemma_mul_comm(bi[t], seps[i as int]);
        }
        assert(eval_basis_partial_views(bs, seps, ris, k, count) =~= sum_seqs(ss, count));
    }
}

/// With one variable or more left, the values `yr` of an honest proof,
/// fixed at any last challenge `r`, pass the verifier's final partial
/// sumcheck claim.
#[verifier::rlimit(50)]
pub proof fn lemma_honest_final_claim<F: BinaryField>(
    pc: ProverConfig<F>,
    vc: VerifierConfig,
    poly: Seq<F>,
    p: FinalizedLigeritoProof<F>,
    r: F,
)
    requires
        final_link_ok(pc, vc, poly, p),
        p.final_ligero_proof.yr@ == trace_final(pc, poly).f,
    ensures
        final_sumcheck_ok(vc, p, r),
{
    reveal(final_link_ok);
    let log_n = log2(poly.len());
    let steps = pc.recursive_steps as nat;
    let last = (steps - 1) as nat;
    let kl = pc.ks@[last as int] as nat;
    let fin = trace_final(pc, poly);
    let st = trace_step(pc, poly, last);
    let nl = vars_before_step(pc, log_n, last) as nat;
    lemma_step_shape(pc, poly, last);
    lemma_rounds_shape(st, kl, nl);
    lemma_ks_sum_step(pc.ks@, last);
    let nf = (nl - kl) as nat;
    assert(pc.ks@[last as int] >= 1 && nl - kl >= 1);
    assert(vars_before_step(pc, log_n, steps) == nf);
    let yr = p.final_ligero_proof.yr@;
    let fe = spec_partial_eval(yr, seq![r]);
    crate::multilinear_poly::lemma_partial_eval_len(yr, seq![r], nf);
    lemma_pow2_is_pow2((nf - 1) as nat);
    let k = (nf - 1) as nat;
    lemma_final_sum(pc, vc, poly, p, r, steps);
    lemma_final_basis_term(pc, vc, poly, p, r, 0);
    crate::ligerito::lemma_running_final_partial(fin.f, fin.bs, nf, r);
    lemma_running_matches(pc, vc, poly, p, last, kl);
    // the basis polynomials fit the challenges
    let bs = basis_upto(vc, p, steps);
    let ris = challenges_before(vc, p, steps);
    lemma_challenges_replay(pc, vc, poly, p, steps);
    lemma_chals_len(pc, poly, 0, steps);
    assert(log2(bs[0].len()) == ris.len() + 1 + k);
    assert forall|i: int| 1 <= i < bs.len() implies k < #[trigger] log2(bs[i].len()) <= ris.len() + 1 + k by {
        lemma_final_basis_term(pc, vc, poly, p, r, i as nat);
        lemma_ks_sum_mono(pc.ks@, i as nat, steps);
        lemma_ks_sum_mono(pc.ks@, 0, i as nat);
        lemma_ks_sum_step(pc.ks@, (i - 1) as nat);
        lemma_ks_sum_mono(pc.ks@, i as nat, last);
    }
}

/// The queries the verifier draws after `yr` at the last step, and the
/// transcript state after them.
pub open spec fn last_draw<F: BinaryField>(vc: VerifierConfig, p: FinalizedLigeritoProof<F>) -> (Seq<usize>, FsState) {
    let last = (vc.recursive_steps - 1) as nat;
    fs_draw(
        fs_absorb(vfolds(vc, p, last, vc.ks@[last as int] as nat), elems_bytes(p.final_ligero_proof.yr@)),
        verifier_rows(vc)[last as int],
    )
}

/// The rows opened at the last step pass the row check against `yr` at the
/// queries drawn after it.
pub open spec fn last_rows_pass<F: BinaryField>(vc: VerifierConfig, p: FinalizedLigeritoProof<F>) -> bool {
    let last = (vc.recursive_steps - 1) as nat;
    let rows = p.final_ligero_proof.opened_rows@;
    let yr = p.final_ligero_proof.yr@;
    let rs = vchallenges(vc, p, last);
    forall|t: int|
        0 <= t < rows.len() ==> #[trigger] row_check(
            rows[t]@,
            spec_lagrange_basis(rs, rs.len()),
            yr,
            sorted_of(last_draw(vc, p).0)[t],
            log2(yr.len()),
        )
}

/// The checks from step `i` on pass when each of them does.
proof fn lemma_steps_accept_from<F: BinaryField>(vc: VerifierConfig, p: FinalizedLigeritoProof<F>, i: nat)
    requires
        forall|j: nat| i <= j && j + 1 < vc.recursive_steps ==> #[trigger] step_accepts(vc, p, j),
        final_accepts(vc, p),
    ensures
        steps_accept_from(vc, p, i),
    decreases vc.recursive_steps - i,
{
    if i + 1 < vc.recursive_steps {
        lemma_steps_accept_from(vc, p, i + 1);
        assert(step_accepts(vc, p, i));
    }
}

/// A proof that the prover gives is accepted by the verifier with matching
/// parameters (whose matrix sizes fit the numbers of variables), given two
/// facts this lemma takes as premises: that the rows opened at the last
/// step pass the row check against `yr`, and that the transcript's counter
/// is not used up by the verifier's last squeeze, which the prover never
/// makes. Every other check is proved to pass, the final partial sumcheck
/// claim included.
pub proof fn lemma_honest_proof_accepted_given_rows<F: BinaryField>(
    pc: ProverConfig<F>,
    vc: VerifierConfig,
    poly: Seq<F>,
    p: FinalizedLigeritoProof<F>,
)
    requires
        configs_match(pc, vc),
        is_pow2(poly.len()),
        prover_config_ok(pc, log2(poly.len())),
        dims_fit(pc, vc, log2(poly.len())),
        prover_succeeds(pc, poly),
        is_prover_output(pc, poly, p),
        last_rows_pass(vc, p),
        last_draw(vc, p).1.1 < u32::MAX,
    ensures
        spec_ligerito_verify(vc, p),
{
    lemma_honest_proof_checks(pc, vc, poly, p);
    assert(replays_run(pc, poly, p));
    assert forall|t: int| 0 <= t < pc.recursive_steps - 1 implies (#[trigger] p.recursive_proofs@[t]).opened_rows@.len()
        == NUM_QUERIES by {
        assert(step_accepts(vc, p, t as nat));
    }
    reveal(final_link_ok);
    assert(final_link_ok(pc, vc, poly, p));
    let q = last_draw(vc, p);
    lemma_honest_final_claim(pc, vc, poly, p, fs_challenge::<F>(q.1));
    assert(final_accepts(vc, p));
    lemma_steps_accept_from(vc, p, 0);
}

/// After step `i`, the openings made so far are still at the queries drawn
/// from the transcript, now read with the new root and round values.
proof fn lemma_openings_frame<F: BinaryField>(
    rc: Seq<RecursiveLigeroCommitment>,
    rp: Seq<RecursiveLigeroProof<F>>,
    config: ProverConfig<F>,
    initial_root: Seq<u8>,
    n0: usize,
    roots_start: Seq<Seq<u8>>,
    roots_new: Seq<Seq<u8>>,
    tr_cur: Seq<(F, F, F)>,
    tr_new: Seq<(F, F, F)>,
    i: nat,
)
    requires
        i < config.ks@.len(),
        forall|jj: int|
            0 <= jj < i ==> #[trigger] opening_at(
                rc[jj].root@,
                rp[jj].merkle_proof@,
                log2((4 * config.dims@[jj].0) as nat),
                rp[jj].opened_rows@,
                step_draw(initial_root, roots_start, tr_cur, config.initial_k as nat, config.ks@, n0, prover_rows(config), jj as nat),
            ),
        opening_at(
            rc[i as int].root@,
            rp[i as int].merkle_proof@,
            log2((4 * config.dims@[i as int].0) as nat),
            rp[i as int].opened_rows@,
            step_draw(initial_root, roots_new, tr_cur, config.initial_k as nat, config.ks@, n0, prover_rows(config), i),
        ),
        agree_below(roots_start, roots_new, (i + 1) as int),
        roots_new.len() >= i + 2,
        tr_cur.len() == step_entry(config.ks@, i) + config.ks@[i as int],
        agree_below(tr_cur, tr_new, tr_cur.len() as int),
    ensures
        forall|jj: int|
            0 <= jj < i + 1 ==> #[trigger] opening_at(
                rc[jj].root@,
                rp[jj].merkle_proof@,
                log2((4 * config.dims@[jj].0) as nat),
                rp[jj].opened_rows@,
                step_draw(initial_root, roots_new, tr_new, config.initial_k as nat, config.ks@, n0, prover_rows(config), jj as nat),
            ),
{
    assert forall|jj: int| 0 <= jj < i + 1 implies #[trigger] opening_at(
        rc[jj].root@,
        rp[jj].merkle_proof@,
        log2((4 * config.dims@[jj].0) as nat),
        rp[jj].opened_rows@,
        step_draw(initial_root, roots_new, tr_new, config.initial_k as nat, config.ks@, n0, prover_rows(config), jj as nat),
    ) by {
        lemma_ks_sum_step(config.ks@, jj as nat);
        lemma_ks_sum_step(config.ks@, i);
        if jj < i {
            lemma_ks_sum_mono(config.ks@, (jj + 1) as nat, i);
            assert(opening_at(
                rc[jj].root@,
                rp[jj].merkle_proof@,
                log2((4 * config.dims@[jj].0) as nat),
                rp[jj].opened_rows@,
                step_draw(initial_root, roots_start, tr_cur, config.initial_k as nat, config.ks@, n0, prover_rows(config), jj as nat),
            ));
            lemma_step_draw_frame(
                initial_root,
                roots_start,
                roots_new,
                tr_cur,
                tr_new,
                config.initial_k as nat,
                config.ks@,
                n0,
                prover_rows(config),
                jj as nat,
            );
        } else {
            lemma_step_draw_frame(
                initial_root,
                roots_new,
                roots_new,
                tr_cur,
                tr_new,
                config.initial_k as nat,
                config.ks@,
                n0,
                prover_rows(config),
                jj as nat,
            );
        }
    }
}

/// The polynomial after `j` rounds is the step's polynomial fixed at the
/// rounds' challenges.
proof fn lemma_rounds_f<F: BinaryField>(st: ProverTrace<F>, j: nat)
    requires
        st.rs == Seq::<F>::empty(),
    ensures
        trace_rounds(st, j).f == spec_partial_eval(st.f, trace_rounds(st, j).rs),
    decreases j,
{
    if j == 0 {
        assert(trace_rounds(st, 0).rs =~= Seq::<F>::empty());
    } else {
        let s1 = trace_rounds(st, (j - 1) as nat);
        lemma_rounds_f(st, (j - 1) as nat);
        lemma_partial_eval_then(st.f, s1.rs, fs_challenge::<F>(s1.fs));
    }
}

/// The rows of the matrix that commits to `start` (`n` columns of `m`
/// symbols under `code`), at the drawn queries taken in increasing order,
/// pass the row check against `start` fixed at the challenges `rs` (one per
/// column bit): each row combined with the Lagrange basis of `rs` is the
/// fixed polynomial evaluated at the row's query in the novel basis.
pub open spec fn rows_evaluate<F: BinaryField>(
    start: Seq<F>,
    m: nat,
    n: nat,
    code: ReedSolomonEncoding<F>,
    drawn: Seq<usize>,
    rs: Seq<F>,
) -> bool {
    let qs = sorted_of(drawn);
    let rows = rows_at(commit_matrix(start, m, n, code), qs, 4 * m, n);
    let f = spec_partial_eval(start, rs);
    forall|t: int|
        0 <= t < rows.len() ==> #[trigger] row_check(rows[t], spec_lagrange_basis(rs, rs.len()), f, qs[t], log2(f.len()))
}

/// Every opening of the run reads rows that pass the row check: the first
/// opening against `poly` fixed at the first challenges, and the opening of
/// each step's matrix against its polynomial fixed at the step's challenges.
pub open spec fn trace_rows_evaluate<F: BinaryField>(config: ProverConfig<F>, poly: Seq<F>) -> bool {
    &&& rows_evaluate(
        poly,
        config.initial_dims.0 as nat,
        config.initial_dims.1 as nat,
        config.initial_reed_solomon,
        trace_initial_queries(config, poly),
        trace_rs0(config, poly),
    )
    &&& forall|i: nat|
        i < config.recursive_steps ==> #[trigger] rows_evaluate(
            trace_step(config, poly, i).start,
            config.dims@[i as int].0 as nat,
            config.dims@[i as int].1 as nat,
            config.reed_solomon_codes@[i as int],
            trace_queries(config, poly, i),
            trace_rounds(trace_step(config, poly, i), config.ks@[i as int] as nat).rs,
        )
}

/// The queries a draw gives have an increasing order with as many entries.
proof fn lemma_draw_sorted(st: FsState, n: usize)
    requires
        n > 0,
    ensures
        strictly_increasing(sorted_of(fs_draw(st, n).0)),
        sorted_of(fs_draw(st, n).0).len() == fs_draw(st, n).0.len(),
{
    crate::emulated_fs::lemma_distinct_queries(st.0, st.1, n, NUM_QUERIES as nat, seq![]);
    crate::ligerito_verifier::lemma_sorted_exists(fs_draw(st, n).0);
}

/// When every opening reads rows that pass the row check, the claimed sums
/// of the run up to step `i` match, as far as the draws go through.
#[verifier::rlimit(100)]
proof fn lemma_step_sums<F: BinaryField>(config: ProverConfig<F>, poly: Seq<F>, i: nat)
    requires
        is_pow2(poly.len()),
        prover_config_ok(config, log2(poly.len())),
        trace_rows_evaluate(config, poly),
        i < config.recursive_steps,
        trace_step(config, poly, i).ok,
    ensures
        trace_step(config, poly, i).sums,
    decreases i,
{
    let log_n = log2(poly.len());
    lemma_step_shape(config, poly, i);
    if i == 0 {
        let st0 = trace_initial(config, poly);
        let m0 = config.initial_dims.0;
        let n0 = config.initial_dims.1;
        let t1 = spec_u32_to_le_bytes(1234) + trace_root0(config, poly);
        let rs0 = trace_rs0(config, poly);
        let q = fs_draw(fs_absorb(after_squeezes(t1, 0, config.initial_k as nat), st0.roots[0]), (4 * m0) as usize);
        lemma_draw_sorted(fs_absorb(after_squeezes(t1, 0, config.initial_k as nat), st0.roots[0]), (4 * m0) as usize);
        let qs = sorted_of(q.0);
        assert(q.0 == trace_initial_queries(config, poly));
        let nv = vars_before_step(config, log_n, 0) as nat;
        assert(config.ks@[0] >= 1 && nv - config.ks@[0] >= 1);
        lemma_pow2_is_pow2(nv);
        let rows = rows_at(commit_matrix(poly, m0 as nat, n0 as nat, config.initial_reed_solomon), qs, (4 * m0) as nat, n0 as nat);
        assert(sks_seq::<F>(nv) =~= crate::ligero::spec_sks_vks::<F>(nv));
        crate::ligero::lemma_claimed_sum_holds(
            rows,
            spec_lagrange_basis(rs0, rs0.len()),
            st0.f,
            nv,
            qs,
            fs_challenge::<F>(q.1),
            NUM_QUERIES as nat,
        );
    } else {
        let j = (i - 1) as nat;
        let kj = config.ks@[j as int] as nat;
        let stj = trace_step(config, poly, j);
        let se = trace_rounds(stj, kj);
        lemma_rounds_ok(stj, kj);
        lemma_step_sums(config, poly, j);
        lemma_step_shape(config, poly, j);
        lemma_step_start(config, poly, j);
        let nvj = vars_before_step(config, log_n, j) as nat;
        lemma_rounds_shape(stj, kj, nvj);
        lemma_rounds_f(stj, kj);
        assert(config.ks@[j as int] >= 1 && nvj - kj >= 1);
        let nv = (nvj - kj) as nat;
        lemma_pow2_is_pow2(nv);
        let mn = config.dims@[i as int];
        let root = commit_root(se.f, mn.0 as nat, mn.1 as nat, config.reed_solomon_codes@[i as int]);
        let st_in = fs_absorb(se.fs, root);
        let n_rows = (4 * config.dims@[j as int].0) as usize;
        lemma_draw_sorted(st_in, n_rows);
        let q = fs_draw(st_in, n_rows);
        let qs = sorted_of(q.0);
        assert(q.0 == trace_queries(config, poly, j));
        assert(stj.start == stj.f);
        assert(rows_evaluate(
            stj.start,
            config.dims@[j as int].0 as nat,
            config.dims@[j as int].1 as nat,
            config.reed_solomon_codes@[j as int],
            trace_queries(config, poly, j),
            se.rs,
        ));
        let rows = rows_at(
            commit_matrix(stj.start, config.dims@[j as int].0 as nat, config.dims@[j as int].1 as nat, config.reed_solomon_codes@[j as int]),
            qs,
            (4 * config.dims@[j as int].0) as nat,
            config.dims@[j as int].1 as nat,
        );
        assert(sks_seq::<F>(nv) =~= crate::ligero::spec_sks_vks::<F>(nv));
        crate::ligero::lemma_claimed_sum_holds(
            rows,
            spec_lagrange_basis(se.rs, se.rs.len()),
            se.f,
            nv,
            qs,
            fs_challenge::<F>(q.1),
            NUM_QUERIES as nat,
        );
    }
}

/// When every opening of the run reads rows that pass the row check, every
/// claimed sum matches: the prover returns a proof exactly when the
/// transcript's counter does not run out.
pub proof fn lemma_prover_succeeds_given_rows<F: BinaryField>(config: ProverConfig<F>, poly: Seq<F>)
    requires
        is_pow2(poly.len()),
        prover_config_ok(config, log2(poly.len())),
        trace_rows_evaluate(config, poly),
    ensures
        prover_succeeds(config, poly) <==> prover_draws_succeed(config, poly),
{
    let last = (config.recursive_steps - 1) as nat;
    if prover_draws_succeed(config, poly) {
        lemma_trace_ok(config, poly, last);
        lemma_step_sums(config, poly, last);
        lemma_rounds_ok(trace_step(config, poly, last), config.ks@[last as int] as nat);
    }
}

/// The rows opened at the last step of an honest proof pass the verifier's
/// row check when the run's last opening reads rows that pass it.
#[verifier::rlimit(100)]
proof fn lemma_last_rows_pass<F: BinaryField>(
    pc: ProverConfig<F>,
    vc: VerifierConfig,
    poly: Seq<F>,
    p: FinalizedLigeritoProof<F>,
)
    requires
        configs_match(pc, vc),
        is_pow2(poly.len()),
        prover_config_ok(pc, log2(poly.len())),
        trace_rows_evaluate(pc, poly),
        is_prover_output(pc, poly, p),
    ensures
        last_rows_pass(vc, p),
{
    let last = (pc.recursive_steps - 1) as nat;
    let kl = pc.ks@[last as int] as nat;
    let stl = trace_step(pc, poly, last);
    let fin = trace_final(pc, poly);
    assert(replays_run(pc, poly, p));
    lemma_replay_matches(pc, vc, poly, p, last);
    lemma_step_challenges(pc, vc, poly, p, last);
    lemma_step_start(pc, poly, last);
    lemma_rounds_f(stl, kl);
    lemma_prover_draws_are_verifier_draws(pc, vc, seq![], seq![], Seq::<(F, F, F)>::empty(), seq![]);
    assert(stl.start == stl.f);
    assert(last_draw(vc, p).0 == trace_queries(pc, poly, last));
    assert(rows_evaluate(
        stl.start,
        pc.dims@[last as int].0 as nat,
        pc.dims@[last as int].1 as nat,
        pc.reed_solomon_codes@[last as int],
        trace_queries(pc, poly, last),
        fin.rs,
    ));
    let rows = p.final_ligero_proof.opened_rows@;
    assert(rows_view(rows).len() == rows.len());
    assert forall|t: int| 0 <= t < rows.len() implies #[trigger] row_check(
        rows[t]@,
        spec_lagrange_basis(vchallenges(vc, p, last), vchallenges(vc, p, last).len()),
        p.final_ligero_proof.yr@,
        sorted_of(last_draw(vc, p).0)[t],
        log2(p.final_ligero_proof.yr@.len()),
    ) by {
        assert(rows_view(rows)[t] == rows[t]@);
    }
}

/// An honest proof is accepted: when the codes of the prover's parameters
/// evaluate the messages they are given (`codes_evaluate`) and the
/// transcript's counter runs out neither for the prover nor at the
/// verifier's last squeeze, the prover returns a proof and the verifier
/// with matching parameters (whose matrix sizes fit the numbers of
/// variables) accepts it.
pub proof fn lemma_honest_proof_accepted<F: BinaryField>(
    pc: ProverConfig<F>,
    vc: VerifierConfig,
    poly: Seq<F>,
    p: FinalizedLigeritoProof<F>,
)
    requires
        configs_match(pc, vc),
        is_pow2(poly.len()),
        prover_config_ok(pc, log2(poly.len())),
        dims_fit(pc, vc, log2(poly.len())),
        codes_evaluate(pc, log2(poly.len())),
        prover_draws_succeed(pc, poly),
        is_prover_output(pc, poly, p),
        last_draw(vc, p).1.1 < u32::MAX,
    ensures
        prover_succeeds(pc, poly),
        spec_ligerito_verify(vc, p),
{
    lemma_trace_rows_evaluate(pc, poly);
    lemma_prover_succeeds_given_rows(pc, poly);
    lemma_last_rows_pass(pc, vc, poly, p);
    lemma_honest_proof_accepted_given_rows(pc, vc, poly, p);
}

/// The prover fails only when the transcript's counter runs out: when the
/// codes of its parameters evaluate the messages they are given, every
/// claimed sum matches its round values.
pub proof fn lemma_prover_succeeds<F: BinaryField>(config: ProverConfig<F>, poly: Seq<F>)
    requires
        is_pow2(poly.len()),
        prover_config_ok(config, log2(poly.len())),
        codes_evaluate(config, log2(poly.len())),
    ensures
        prover_succeeds(config, poly) <==> prover_draws_succeed(config, poly),
{
    lemma_trace_rows_evaluate(config, poly);
    lemma_prover_succeeds_given_rows(config, poly);
}

/// The prover's and the verifier's parameters describe the same proof: the
/// same steps and challenges, and matrices with the same numbers of rows.
pub open spec fn configs_match<F: BinaryField>(pc: ProverConfig<F>, vc: VerifierConfig) -> bool {
    &&& pc.recursive_steps == vc.recursive_steps
    &&& pc.initial_k == vc.initial_k
    &&& pc.ks@ == vc.ks@
    &&& 4 * pc.initial_dims.0 == pow2((vc.initial_dim + 2) as nat)
    &&& pc.dims@.len() == vc.log_dims@.len()
    &&& forall|j: int| 0 <= j < pc.dims@.len() ==> 4 * #[trigger] pc.dims@[j].0 == pow2((vc.log_dims@[j] + 2) as nat)
}

/// The hard-coded parameters for `2^20` coefficients match.
pub proof fn lemma_configs_20_match<F: BinaryField>(pc: ProverConfig<F>, vc: VerifierConfig)
    requires
        pc.recursive_steps == 1,
        pc.initial_dims == (16384usize, 64usize),
        pc.dims@ == seq![(1024usize, 16usize)],
        pc.initial_k == 6,
        pc.ks@ == seq![4usize],
        vc.recursive_steps == 1,
        vc.initial_dim == 14,
        vc.log_dims@ == seq![10usize],
        vc.initial_k == 6,
        vc.ks@ == seq![4usize],
    ensures
        configs_match(pc, vc),
        dims_fit(pc, vc, 20),
{
    lemma2_to64();
}

/// The hard-coded parameters for `2^24` coefficients match.
pub proof fn lemma_configs_24_match<F: BinaryField>(pc: ProverConfig<F>, vc: VerifierConfig)
    requires
        pc.recursive_steps == 2,
        pc.initial_dims == (262144usize, 64usize),
        pc.dims@ == seq![(16384usize, 16usize), (1024usize, 16usize)],
        pc.initial_k == 6,
        pc.ks@ == seq![4usize, 4usize],
        vc.recursive_steps == 2,
        vc.initial_dim == 18,
        vc.log_dims@ == seq![14usize, 10usize],
        vc.initial_k == 6,
        vc.ks@ == seq![4usize, 4usize],
    ensures
        configs_match(pc, vc),
        dims_fit(pc, vc, 24),
{
    lemma2_to64();
    assert(pc.ks@[0] == 4 && pc.ks@.len() == 2);
    assert(ks_sum(pc.ks@, 0) == 0);
    assert(ks_sum(pc.ks@, 1) == 4);
    assert(pow2(20) == 0x100000) by {
        lemma_pow2_unfold(20);
        lemma_pow2_unfold(19);
        lemma_pow2_unfold(18);
        lemma_pow2_unfold(17);
    }
}

/// With matching parameters the prover opens its matrices at the very
/// queries the verifier draws, at the depths the verifier checks: the
/// openings that `prover` states (`opening_at` over its draws) are openings
/// at the verifier's draws, so by `lemma_opening_passes_drawn_check` each of
/// the verifier's Merkle checks passes on them.
pub proof fn lemma_prover_draws_are_verifier_draws<F: BinaryField>(
    pc: ProverConfig<F>,
    vc: VerifierConfig,
    root0: Seq<u8>,
    roots: Seq<Seq<u8>>,
    tr: Seq<(F, F, F)>,
    yr_bytes: Seq<u8>,
)
    requires
        configs_match(pc, vc),
    ensures
        log2((4 * pc.initial_dims.0) as nat) == vc.initial_dim + 2,
        (4 * pc.initial_dims.0) as usize == pow2((vc.initial_dim + 2) as nat) as usize,
        prover_rows(pc) == verifier_rows(vc),
        forall|j: int|
            0 <= j < pc.dims@.len() ==> log2((4 * #[trigger] pc.dims@[j].0) as nat) == vc.log_dims@[j] + 2,
        forall|j: nat|
            #[trigger] step_draw(root0, roots, tr, pc.initial_k as nat, pc.ks@, (4 * pc.initial_dims.0) as usize, prover_rows(pc), j)
                == step_draw(
                root0,
                roots,
                tr,
                vc.initial_k as nat,
                vc.ks@,
                pow2((vc.initial_dim + 2) as nat) as usize,
                verifier_rows(vc),
                j,
            ),
        forall|j: nat|
            #[trigger] final_draw(
                root0,
                roots,
                tr,
                pc.initial_k as nat,
                pc.ks@,
                (4 * pc.initial_dims.0) as usize,
                prover_rows(pc),
                j,
                yr_bytes,
            ) == final_draw(
                root0,
                roots,
                tr,
                vc.initial_k as nat,
                vc.ks@,
                pow2((vc.initial_dim + 2) as nat) as usize,
                verifier_rows(vc),
                j,
                yr_bytes,
            ),
{
    lemma_pow2_is_pow2((vc.initial_dim + 2) as nat);
    assert forall|j: int| 0 <= j < pc.dims@.len() implies log2((4 * #[trigger] pc.dims@[j].0) as nat) == vc.log_dims@[j] + 2 by {
        lemma_pow2_is_pow2((vc.log_dims@[j] + 2) as nat);
    }
    assert(prover_rows(pc) =~= verifier_rows(vc));
}


/// The novel-basis values of the first `2^n` coefficients at the point `q`,
/// as the row check computes them.
pub open spec fn query_basis<F: BinaryField>(q: nat, n: nat) -> Seq<F> {
    spec_basis_seq(spec_sks_at_x_seq(spec_sks_vks::<F>(n), F::spec_from_nat(q), n), F::spec_one(), pow2(n))
}

/// The code evaluates messages of `2^n` symbols: at each position `q` of
/// its block, the codeword of a message padded with zeros is the inner
/// product of the message with the novel-basis values at `q`.
pub open spec fn code_evaluates<F: BinaryField>(code: ReedSolomonEncoding<F>, n: nat) -> bool {
    forall|x: Seq<F>, q: int|
        x.len() == pow2(n) && 0 <= q < 4 * pow2(n) ==> #[trigger] rs_encoded(code, spec_pad(x, 4 * pow2(n)))[q]
            == spec_inner(x, query_basis::<F>(q as nat, n))
}

/// Combining inner products with `g` by the weights `l` is the inner
/// product with `g` of the weighted combination.
proof fn lemma_sum_swap<F: BinaryField>(l: Seq<F>, a: spec_fn(int, int) -> F, g: Seq<F>, c0: nat)
    ensures
        spec_sum(Seq::new(c0, |c: int| F::spec_mul(spec_inner(Seq::new(g.len(), |t: int| a(c, t)), g), l[c])))
            == spec_inner(Seq::new(g.len(), |t: int| spec_sum(Seq::new(c0, |c: int| F::spec_mul(l[c], a(c, t))))), g),
    decreases c0,
{
    let mm = g.len();
    let comb = Seq::new(mm, |t: int| spec_sum(Seq::new(c0, |c: int| F::spec_mul(l[c], a(c, t)))));
    let rhs = Seq::new(mm, |t: int| F::spec_mul(comb[t], g[t]));
    assert(spec_inner(comb, g) == spec_sum(rhs));
    if c0 == 0 {
        let z = Seq::new(mm, |i: int| F::spec_mul(F::spec_zero(), g[i]));
        assert(rhs =~= z);
        lemma_sum_scale(F::spec_zero(), g);
        F::lemma_mul_zero(spec_sum(g));
    } else {
        let k = (c0 - 1) as nat;
        lemma_sum_swap(l, a, g, k);
        let prev = Seq::new(mm, |t: int| spec_sum(Seq::new(k, |c: int| F::spec_mul(l[c], a(c, t)))));
        let x = Seq::new(mm, |t: int| F::spec_mul(prev[t], g[t]));
        let w = Seq::new(mm, |t: int| F::spec_mul(a(k as int, t), g[t]));
        let y = Seq::new(mm, |t: int| F::spec_mul(l[k as int], w[t]));
        assert forall|t: int| 0 <= t < mm implies #[trigger] rhs[t] == F::spec_add(x[t], y[t]) by {
            let h = Seq::new(c0, |c: int| F::spec_mul(l[c], a(c, t)));
            assert(h.drop_last() =~= Seq::new(k, |c: int| F::spec_mul(l[c], a(c, t))));
            assert(comb[t] == F::spec_add(prev[t], F::spec_mul(l[k as int], a(k as int, t))));
            F::lemma_mul_comm(F::spec_add(prev[t], F::spec_mul(l[k as int], a(k as int, t))), g[t]);
            F::lemma_mul_distrib(g[t], prev[t], F::spec_mul(l[k as int], a(k as int, t)));
            F::lemma_mul_comm(g[t], prev[t]);
            F::lemma_mul_comm(g[t], F::spec_mul(l[k as int], a(k as int, t)));
            F::lemma_mul_assoc(l[k as int], a(k as int, t), g[t]);
        }
        assert(rhs =~= Seq::new(x.len(), |t: int| F::spec_add(x[t], y[t])));
        lemma_sum_pointwise_add(x, y);
        lemma_sum_scale(l[k as int], w);
        assert(Seq::new(w.len(), |i: int| F::spec_mul(l[k as int], w[i])) =~= y);
        let lseq = Seq::new(c0, |c: int| F::spec_mul(spec_inner(Seq::new(mm, |t: int| a(c, t)), g), l[c]));
        assert(lseq.drop_last() =~= Seq::new(k, |c: int| F::spec_mul(spec_inner(Seq::new(mm, |t: int| a(c, t)), g), l[c])));
        let ak = Seq::new(mm, |t: int| a(k as int, t));
        assert(spec_inner(ak, g) == spec_sum(w)) by {
            assert(Seq::new(mm, |i: int| F::spec_mul(ak[i], g[i])) =~= w);
        }
        F::lemma_mul_comm(spec_sum(w), l[k as int]);
        assert(spec_inner(prev, g) == spec_sum(x));
    }
}

/// The Lagrange basis at the first `k` values depends on those alone.
proof fn lemma_lagrange_prefix_only<F: BinaryField>(rs: Seq<F>, rs2: Seq<F>, k: nat)
    requires
        1 <= k <= rs.len(),
        k <= rs2.len(),
        forall|i: int| 0 <= i < k ==> rs[i] == rs2[i],
    ensures
        spec_lagrange_basis(rs, k) == spec_lagrange_basis(rs2, k),
    decreases k,
{
    if k > 1 {
        lemma_lagrange_prefix_only(rs, rs2, (k - 1) as nat);
    }
}

/// A matrix that commits to `poly` exists.
proof fn lemma_commit_matrix_exists<F: BinaryField>(poly: Seq<F>, m: nat, n: nat, rs: ReedSolomonEncoding<F>)
    requires
        m >= 1,
    ensures
        is_commit_matrix(commit_matrix(poly, m, n, rs), poly, m, n, rs),
{
    let d = 4 * m;
    let enc = |j: int| rs_encoded(rs, spec_pad(poly.subrange(j * m, j * m + m), d));
    let flat = Seq::new(n * d, |x: int| enc(x / (d as int))[x % (d as int)]);
    assert forall|j: int| 0 <= j < n implies #[trigger] column(flat, d, j) == enc(j) by {
        let pis = crate::reed_solomon::spec_pis::<F>(rs.spec_log_message_length());
        let tw = crate::binary_fft::spec_twiddles(rs.spec_log_block_length(), F::spec_zero());
        crate::binary_fft::lemma_fft_len(spec_scale_message(spec_pad(poly.subrange(j * m, j * m + m), d), pis), tw, 1);
        assert(j * d + d <= n * d) by (nonlinear_arith)
            requires
                j < n,
        ;
        assert(0 <= j * d) by (nonlinear_arith)
            requires
                j >= 0,
        ;
        assert forall|o: int| 0 <= o < d implies #[trigger] column(flat, d, j)[o] == enc(j)[o] by {
            vstd::arithmetic::div_mod::lemma_fundamental_div_mod_converse(j * d + o, d as int, j, o);
        }
        assert(column(flat, d, j) =~= enc(j));
    }
    assert(is_commit_matrix(flat, poly, m, n, rs));
}

/// Honest openings pass the row check: when the code evaluates messages,
/// every row of the matrix that commits to `start` (`2^k` columns of `2^lm`
/// symbols, with `k` the number of challenges `rs`), opened at a position
/// inside the block, combined with the Lagrange basis of `rs` is the
/// polynomial `start` fixed at `rs` evaluated at that position.
pub proof fn lemma_committed_rows_pass<F: BinaryField>(
    start: Seq<F>,
    lm: nat,
    code: ReedSolomonEncoding<F>,
    qs: Seq<usize>,
    rs: Seq<F>,
)
    requires
        start.len() == pow2(lm) * pow2(rs.len()),
        rs.len() >= 1,
        code_evaluates(code, lm),
        forall|t: int| 0 <= t < qs.len() ==> #[trigger] qs[t] < 4 * pow2(lm),
    ensures
        ({
            let m = pow2(lm);
            let n = pow2(rs.len());
            let rows = rows_at(commit_matrix(start, m, n, code), qs, 4 * m, n);
            let f = spec_partial_eval(start, rs);
            forall|t: int|
                0 <= t < rows.len() ==> #[trigger] row_check(rows[t], spec_lagrange_basis(rs, rs.len()), f, qs[t], log2(f.len()))
        }),
{
    let m = pow2(lm);
    let k = rs.len();
    let n = pow2(k);
    let d = 4 * m;
    lemma_pow2_pos(lm);
    lemma_pow2_pos(k);
    lemma_pow2_adds(lm, k);
    lemma_commit_matrix_exists(start, m, n, code);
    let flat = commit_matrix(start, m, n, code);
    let rows = rows_at(flat, qs, d, n);
    let f = spec_partial_eval(start, rs);
    let l = spec_lagrange_basis(rs, k);
    crate::utils::lemma_lagrange_basis_len(rs, k);
    let rs_full = rs + Seq::new(lm, |i: int| F::spec_zero());
    crate::utils::lemma_partial_eval_lagrange_prefix(start, rs_full, lm + k, k);
    assert(rs_full.subrange(0, k as int) =~= rs);
    lemma_lagrange_prefix_only(rs_full, rs, k);
    assert((lm + k - k) as nat == lm);
    assert(f == crate::utils::spec_lagrange_combination(start, rs_full, k, m));
    assert(f.len() == m);
    crate::binary_fft::lemma_log2_of_sum(lm, 0);
    assert(log2(f.len()) == lm);
    let a = |c: int, i: int| start[c * m + i];
    assert forall|t: int| 0 <= t < rows.len() implies #[trigger] row_check(rows[t], l, f, qs[t], log2(f.len())) by {
        let q = qs[t];
        let g = query_basis::<F>(q as nat, lm);
        assert(g.len() == m);
        assert forall|c: int| 0 <= c < n implies #[trigger] rows[t][c] == spec_inner(Seq::new(m, |i: int| a(c, i)), g) by {
            let col = start.subrange(c * m, c * m + m);
            assert(c * m + m <= n * m) by (nonlinear_arith)
                requires
                    c < n,
            ;
            assert(c * d + d <= n * d) by (nonlinear_arith)
                requires
                    c < n,
            ;
            assert(0 <= c * m && 0 <= c * d) by (nonlinear_arith)
                requires
                    c >= 0,
            ;
            assert(n * m == m * n) by (nonlinear_arith);
            assert(col =~= Seq::new(m, |i: int| a(c, i)));
            assert(column(flat, d, c) == rs_encoded(code, spec_pad(col, d)));
            assert(column(flat, d, c)[q as int] == flat[c * d + q]);
            assert(rows[t][c] == flat[c * d + q]);
            assert(rs_encoded(code, spec_pad(col, 4 * pow2(lm)))[q as int] == spec_inner(col, query_basis::<F>(q as nat, lm)));
        }
        lemma_sum_swap(l, a, g, n);
        let lhs = Seq::new(n, |c: int| F::spec_mul(spec_inner(Seq::new(g.len(), |i: int| a(c, i)), g), l[c]));
        assert(Seq::new(n, |c: int| F::spec_mul(rows[t][c], l[c])) =~= lhs);
        assert(rows[t].len() == n);
        assert(spec_inner(rows[t], l) == spec_sum(lhs));
        let comb = Seq::new(g.len(), |i: int| spec_sum(Seq::new(n, |c: int| F::spec_mul(l[c], a(c, i)))));
        assert forall|i: int| 0 <= i < m implies comb[i] == f[i] by {
            assert(Seq::new(n, |c: int| F::spec_mul(l[c], a(c, i))) =~= Seq::new(
                pow2(k),
                |c: int| F::spec_mul(spec_lagrange_basis(rs_full, k)[c], start[c * m + i]),
            ));
        }
        assert(comb =~= f);
    }
}


/// The matrices of the parameters hold exactly the values they commit to,
/// and their codes evaluate the messages they are given: the first matrix
/// has `2^(log_n - initial_k)` rows of message, and that of step `i`
/// `2^(v - ks[i])`, with `v` the variables left before step `i`.
pub open spec fn codes_evaluate<F: BinaryField>(c: ProverConfig<F>, log_n: nat) -> bool {
    &&& c.initial_dims.0 == pow2((log_n - c.initial_k) as nat)
    &&& code_evaluates(c.initial_reed_solomon, (log_n - c.initial_k) as nat)
    &&& forall|i: int|
        0 <= i < c.recursive_steps ==> {
            let lm = (vars_before_step(c, log_n, i as nat) - c.ks@[i]) as nat;
            &&& #[trigger] c.dims@[i].0 == pow2(lm)
            &&& code_evaluates(c.reed_solomon_codes@[i], lm)
        }
}

/// The queries a draw over `n` positions gives, in increasing order, are
/// below `n`.
proof fn lemma_draw_below(st: FsState, n: usize)
    requires
        n > 0,
    ensures
        forall|t: int|
            0 <= t < sorted_of(fs_draw(st, n).0).len() ==> #[trigger] sorted_of(fs_draw(st, n).0)[t] < n,
{
    broadcast use vstd::seq_lib::group_to_multiset_ensures;

    let drawn = fs_draw(st, n).0;
    crate::emulated_fs::lemma_distinct_queries(st.0, st.1, n, NUM_QUERIES as nat, seq![]);
    crate::ligerito_verifier::lemma_sorted_exists(drawn);
    let qs = sorted_of(drawn);
    assert forall|t: int| 0 <= t < qs.len() implies #[trigger] qs[t] < n by {
        let v = qs[t];
        assert(qs.contains(v));
        assert(qs.to_multiset().count(v) > 0);
        assert(drawn.to_multiset().count(v) > 0);
        assert(drawn.contains(v));
    }
}

/// Every opening of an honest run reads rows that pass the row check when
/// the codes evaluate the messages they are given.
pub proof fn lemma_trace_rows_evaluate<F: BinaryField>(config: ProverConfig<F>, poly: Seq<F>)
    requires
        is_pow2(poly.len()),
        prover_config_ok(config, log2(poly.len())),
        codes_evaluate(config, log2(poly.len())),
    ensures
        trace_rows_evaluate(config, poly),
{
    let log_n = log2(poly.len());
    lemma_is_pow2_log2(poly.len());
    let k0 = config.initial_k as nat;
    let lm0 = (log_n - k0) as nat;
    lemma_pow2_adds(lm0, k0);
    assert(lm0 + k0 == log_n);
    let rs0 = trace_rs0(config, poly);
    let m0 = config.initial_dims.0;
    lemma_draw_below(
        fs_absorb(
            after_squeezes(spec_u32_to_le_bytes(1234) + trace_root0(config, poly), 0, k0),
            commit_root(
                spec_partial_eval(poly, rs0),
                config.dims@[0].0 as nat,
                config.dims@[0].1 as nat,
                config.reed_solomon_codes@[0],
            ),
        ),
        (4 * m0) as usize,
    );
    lemma_committed_rows_pass(poly, lm0, config.initial_reed_solomon, sorted_of(trace_initial_queries(config, poly)), rs0);
    assert forall|i: nat| i < config.recursive_steps implies #[trigger] rows_evaluate(
        trace_step(config, poly, i).start,
        config.dims@[i as int].0 as nat,
        config.dims@[i as int].1 as nat,
        config.reed_solomon_codes@[i as int],
        trace_queries(config, poly, i),
        trace_rounds(trace_step(config, poly, i), config.ks@[i as int] as nat).rs,
    ) by {
        let st = trace_step(config, poly, i);
        let ki = config.ks@[i as int] as nat;
        let nv = vars_before_step(config, log_n, i) as nat;
        let lm = (nv - ki) as nat;
        let se = trace_rounds(st, ki);
        lemma_step_shape(config, poly, i);
        lemma_step_start(config, poly, i);
        lemma_rounds_shape_len(st, ki);
        assert(st.start == st.f);
        assert(se.rs.len() == ki);
        assert(config.ks@[i as int] >= 1 && nv - ki >= 1);
        lemma_pow2_adds(lm, ki);
        assert(lm + ki == nv);
        let mi = config.dims@[i as int].0;
        let rows_n = (4 * mi) as usize;
        if i + 1 >= config.recursive_steps {
            lemma_draw_below(fs_absorb(se.fs, elems_bytes(se.f)), rows_n);
        } else {
            let mn = config.dims@[i + 1 as int];
            lemma_draw_below(
                fs_absorb(se.fs, commit_root(se.f, mn.0 as nat, mn.1 as nat, config.reed_solomon_codes@[i + 1 as int])),
                rows_n,
            );
        }
        lemma_committed_rows_pass(st.start, lm, config.reed_solomon_codes@[i as int], sorted_of(trace_queries(config, poly, i)), se.rs);
    }
}

} // verus!
