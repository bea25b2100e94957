//! The Ligerito verifier.
use crate::binary_fft::{eval_sk_at_vks, spec_subspace_poly, spec_v, ilog2, is_pow2, is_power_of_2, lemma_pow2_fits, lemma_pow2_is_pow2, log2, pow2_usize};
use crate::binary_field::BinaryField;
use crate::config::{ks_sum, verifier_config_ok, NUM_QUERIES};
use crate::data_structures::{FinalizedLigeritoProof, RecursiveLigeroCommitment, VerifierConfig};
use crate::emulated_fs::{after_squeezes, distinct_queries, draw_sorted_queries, next_field, squeeze_input, FS};
use crate::ligerito::{basis_fits_partial, copy_transcript, spec_eval_basis_partial, SumcheckVerifierInstance};
use crate::sumcheck::{spec_eval_quadratic, spec_fold_quadratic, spec_quadratic_from_evals, spec_three, QuadraticEvals, QuadraticPoly};
use crate::ligero::{elems_bytes, elems_to_bytes, ligero_verify, row_check};
use crate::utils::spec_lagrange_basis;
use crate::emulated_fs::squeeze_value;
use crate::merkle_tree::{spec_verify, strictly_increasing, verify, views};
use crate::multilinear_poly::{spec_inner, spec_partial_eval, MultiLinearPoly};
use crate::sumcheck_polys::{induce_sumcheck_poly, rows_view, spec_enforced_sum, spec_induced_basis};
use vstd::arithmetic::power2::*;
use vstd::bytes::spec_u32_to_le_bytes;
use vstd::prelude::*;

verus! {

/// The bytes of each row.
pub open spec fn rows_bytes<F: BinaryField>(rows: Seq<Vec<F>>) -> Seq<Seq<u8>> {
    Seq::new(rows.len(), |i: int| elems_bytes(rows[i]@))
}

/// The rows, with the Merkle opening `proof`, open the tree of the given
/// depth with root `root` at some increasing sequence of queries.
pub open spec fn opening_accepted<F: BinaryField>(
    root: Seq<u8>,
    proof: Seq<Vec<u8>>,
    depth: nat,
    rows: Seq<Vec<F>>,
) -> bool {
    exists|qs: Seq<usize>|
        {
            &&& qs.len() == NUM_QUERIES
            &&& strictly_increasing(qs)
            &&& #[trigger] spec_verify(root, views(proof), depth, rows_bytes(rows), qs)
        }
}

/// The queries both sides draw for the first opening: the transcript
/// seeded with 1234 absorbs the first root, draws `k` challenges, absorbs the
/// second root, then draws distinct queries below `n` until it has
/// `NUM_QUERIES` of them.
pub open spec fn initial_draw(root0: Seq<u8>, k: nat, root1: Seq<u8>, n: usize) -> Seq<usize> {
    let p = after_squeezes(spec_u32_to_le_bytes(1234) + root0, 0, k);
    distinct_queries(p.0 + root1, p.1, n, NUM_QUERIES as nat, seq![]).0
}

/// A transcript state: the bytes absorbed so far and the squeeze counter.
pub type FsState = (Seq<u8>, u32);

/// The state after absorbing `data`.
pub open spec fn fs_absorb(st: FsState, data: Seq<u8>) -> FsState {
    (st.0 + data, st.1)
}

/// The state after one squeeze.
pub open spec fn fs_squeeze(st: FsState) -> FsState {
    (squeeze_input(st.0, st.1), (st.1 + 1) as u32)
}

/// The distinct queries below `n` drawn from `st`, and the state after.
pub open spec fn fs_draw(st: FsState, n: usize) -> (Seq<usize>, FsState) {
    let d = distinct_queries(st.0, st.1, n, NUM_QUERIES as nat, seq![]);
    (d.0, (d.1, d.2))
}

/// The bytes of a round's values.
pub open spec fn round_bytes<F: BinaryField>(t: (F, F, F)) -> Seq<u8> {
    QuadraticEvals { e0: t.0, e1: t.1, e2: t.2 }.spec_to_bytes()
}

/// `k` sumcheck rounds from entry `start` of the round values `tr`: a
/// squeeze for the challenge, then the round's values absorbed.
pub open spec fn fs_folds<F: BinaryField>(st: FsState, tr: Seq<(F, F, F)>, start: int, k: nat) -> FsState
    decreases k,
{
    if k == 0 {
        st
    } else {
        fs_absorb(fs_squeeze(fs_folds(st, tr, start, (k - 1) as nat)), round_bytes(tr[start + k - 1]))
    }
}

/// The index of the first round values of step `i`.
pub open spec fn step_entry(ks: Seq<usize>, i: nat) -> int {
    (1 + ks_sum(ks, i) + i) as int
}

/// The transcript state at the start of step `i` of a proof with first root
/// `root0`, later roots `roots`, round values `tr`, `k0` initial challenges,
/// `ks` challenges per step, `n0` rows in the first matrix and `rows[i]` in
/// the matrix of step `i`.
pub open spec fn fs_step_start<F: BinaryField>(
    root0: Seq<u8>,
    roots: Seq<Seq<u8>>,
    tr: Seq<(F, F, F)>,
    k0: nat,
    ks: Seq<usize>,
    n0: usize,
    rows: Seq<usize>,
    i: nat,
) -> FsState
    decreases i,
{
    if i == 0 {
        let s1 = after_squeezes(spec_u32_to_le_bytes(1234) + root0, 0, k0);
        let q = fs_draw(fs_absorb(s1, roots[0]), n0);
        fs_absorb(fs_squeeze(q.1), round_bytes(tr[0]))
    } else {
        let j = (i - 1) as nat;
        let f = fs_folds(fs_step_start(root0, roots, tr, k0, ks, n0, rows, j), tr, step_entry(ks, j), ks[j as int] as nat);
        let q = fs_draw(fs_absorb(f, roots[i as int]), rows[j as int]);
        fs_squeeze(fs_absorb(fs_squeeze(q.1), round_bytes(tr[step_entry(ks, i) - 1])))
    }
}

/// The roots of the commitments.
pub open spec fn commitment_roots(cms: Seq<RecursiveLigeroCommitment>) -> Seq<Seq<u8>> {
    Seq::new(cms.len(), |i: int| cms[i].root@)
}

/// The number of rows of the matrix of each step, as the verifier's
/// parameters give it.
pub open spec fn verifier_rows(config: VerifierConfig) -> Seq<usize> {
    Seq::new(config.log_dims@.len(), |i: int| pow2((config.log_dims@[i] + 2) as nat) as usize)
}

/// The queries drawn for the opening of the matrix of step `i`, when it is
/// not the last step: after the step's rounds, the next root is absorbed.
pub open spec fn step_draw<F: BinaryField>(
    root0: Seq<u8>,
    roots: Seq<Seq<u8>>,
    tr: Seq<(F, F, F)>,
    k0: nat,
    ks: Seq<usize>,
    n0: usize,
    rows: Seq<usize>,
    i: nat,
) -> Seq<usize> {
    let f = fs_folds(fs_step_start(root0, roots, tr, k0, ks, n0, rows, i), tr, step_entry(ks, i), ks[i as int] as nat);
    fs_draw(fs_absorb(f, roots[i + 1 as int]), rows[i as int]).0
}

/// The queries drawn for the final opening at the last step `i`: after the
/// step's rounds, the bytes of `yr` are absorbed.
pub open spec fn final_draw<F: BinaryField>(
    root0: Seq<u8>,
    roots: Seq<Seq<u8>>,
    tr: Seq<(F, F, F)>,
    k0: nat,
    ks: Seq<usize>,
    n0: usize,
    rows: Seq<usize>,
    i: nat,
    yr_bytes: Seq<u8>,
) -> Seq<usize> {
    let f = fs_folds(fs_step_start(root0, roots, tr, k0, ks, n0, rows, i), tr, step_entry(ks, i), ks[i as int] as nat);
    fs_draw(fs_absorb(f, yr_bytes), rows[i as int]).0
}

/// The field element that a squeeze from `st` gives.
pub open spec fn fs_challenge<F: BinaryField>(st: FsState) -> F {
    F::spec_from_u128(squeeze_value(st.0, st.1))
}

/// The challenges of step `i`: one per round, each squeezed before the
/// round's values are absorbed.
pub open spec fn step_challenges<F: BinaryField>(
    root0: Seq<u8>,
    roots: Seq<Seq<u8>>,
    tr: Seq<(F, F, F)>,
    k0: nat,
    ks: Seq<usize>,
    n0: usize,
    rows: Seq<usize>,
    i: nat,
) -> Seq<F> {
    Seq::new(
        ks[i as int] as nat,
        |j: int|
            fs_challenge(
                fs_folds(fs_step_start(root0, roots, tr, k0, ks, n0, rows, i), tr, step_entry(ks, i), j as nat),
            ),
    )
}

/// The opened rows pass the row check against `yr` with the challenges `rs`
/// at the drawn queries, taken in increasing order.
pub open spec fn rows_checked_at<F: BinaryField>(rows: Seq<Vec<F>>, yr: Seq<F>, rs: Seq<F>, drawn: Seq<usize>) -> bool {
    exists|qs: Seq<usize>|
        {
            &&& qs.len() == NUM_QUERIES
            &&& strictly_increasing(qs)
            &&& qs.to_multiset() == drawn.to_multiset()
            &&& forall|k: int|
                0 <= k < rows.len() ==> #[trigger] row_check(
                    rows[k]@,
                    spec_lagrange_basis(rs, rs.len()),
                    yr,
                    qs[k],
                    log2(yr.len()),
                )
        }
}

/// The rows, with the Merkle opening `proof`, open the tree of the given
/// depth with root `root` at the drawn queries `drawn`, taken in increasing
/// order.
pub open spec fn opening_at<F: BinaryField>(
    root: Seq<u8>,
    proof: Seq<Vec<u8>>,
    depth: nat,
    rows: Seq<Vec<F>>,
    drawn: Seq<usize>,
) -> bool {
    exists|qs: Seq<usize>|
        {
            &&& qs.len() == NUM_QUERIES
            &&& strictly_increasing(qs)
            &&& qs.to_multiset() == drawn.to_multiset()
            &&& #[trigger] spec_verify(root, views(proof), depth, rows_bytes(rows), qs)
        }
}

/// The unique increasing order of the drawn queries.
pub open spec fn sorted_of(drawn: Seq<usize>) -> Seq<usize> {
    choose|q: Seq<usize>| strictly_increasing(q) && q.to_multiset() == drawn.to_multiset()
}

/// Distinct queries have an increasing order: `sorted_of` gives it.
pub proof fn lemma_sorted_exists(s: Seq<usize>)
    requires
        crate::emulated_fs::all_distinct(s),
    ensures
        strictly_increasing(sorted_of(s)),
        sorted_of(s).to_multiset() == s.to_multiset(),
        sorted_of(s).len() == s.len(),
{
    broadcast use vstd::seq_lib::group_to_multiset_ensures;

    let leq = |a: usize, b: usize| a <= b;
    assert(vstd::relations::total_ordering(leq)) by {
        assert(vstd::relations::reflexive(leq));
        assert(vstd::relations::antisymmetric(leq));
        assert(vstd::relations::transitive(leq));
        assert(vstd::relations::strongly_connected(leq));
    }
    s.lemma_sort_by_ensures(leq);
    let q = s.sort_by(leq);
    assert(s.no_duplicates()) by {
        assert forall|i: int, j: int| 0 <= i < s.len() && 0 <= j < s.len() && i != j implies s[i] != s[j] by {
            if i < j {
                assert(s[i] != s[j]);
            } else {
                assert(s[j] != s[i]);
            }
        }
    }
    s.lemma_multiset_has_no_duplicates();
    q.lemma_multiset_has_no_duplicates_conv();
    assert forall|a: int, b: int| 0 <= a < b < q.len() implies #[trigger] q[a] < #[trigger] q[b] by {
        assert(leq(q[a], q[b]));
    }
    assert(strictly_increasing(q) && q.to_multiset() == s.to_multiset());
    let q2 = sorted_of(s);
    assert(q2.to_multiset().len() == s.to_multiset().len());
}

/// The values of the subspace polynomials that `eval_sk_at_vks` gives for
/// a domain of `2^d` points.
pub open spec fn sks_seq<F: BinaryField>(d: nat) -> Seq<F> {
    Seq::new(d + 1, |i: int| spec_subspace_poly(i as nat, spec_v::<F>(i as nat)))
}

/// The quadratic through the round values `t` at 0, 1 and 3.
pub open spec fn round_poly<F: BinaryField>(t: (F, F, F)) -> QuadraticPoly<F> {
    spec_quadratic_from_evals(t.0, t.1, t.2, spec_three::<F>())
}

/// The polynomials have the evaluations `bs`, each with as many variables
/// as its evaluations give.
pub open spec fn polys_are<F: BinaryField>(ps: Seq<MultiLinearPoly<F>>, bs: Seq<Seq<F>>) -> bool {
    &&& ps.len() == bs.len()
    &&& forall|k: int|
        0 <= k < ps.len() ==> (#[trigger] ps[k])@ == bs[k] && ps[k].spec_num_vars() == log2(bs[k].len())
}

/// The basis polynomials, given by their evaluations, partially evaluated
/// down to `k` variables: the first at all of `ris`, each later one at the
/// last `n - k` challenges (with `2^n` evaluations), scaled by its
/// separation challenge, summed entrywise left to right over the first
/// `count`.
pub open spec fn eval_basis_partial_views<F: BinaryField>(
    bs: Seq<Seq<F>>,
    seps: Seq<F>,
    ris: Seq<F>,
    k: nat,
    count: nat,
) -> Seq<F>
    decreases count,
{
    if count <= 1 {
        spec_partial_eval(bs[0], ris)
    } else {
        let i = count - 1;
        let n = log2(bs[i].len());
        let prev = eval_basis_partial_views(bs, seps, ris, k, (count - 1) as nat);
        let bi = spec_partial_eval(bs[i], ris.subrange(ris.len() - (n - k), ris.len() as int));
        Seq::new(prev.len(), |t: int| F::spec_add(prev[t], F::spec_mul(seps[i], bi[t])))
    }
}

/// The challenges fit the basis polynomials (by their evaluations) for a
/// partial evaluation down to `k` variables.
pub open spec fn basis_views_fit<F>(bs: Seq<Seq<F>>, ris_len: nat, k: nat) -> bool {
    &&& bs.len() >= 1
    &&& 1 <= ris_len
    &&& log2(bs[0].len()) == ris_len + k
    &&& forall|i: int| 1 <= i < bs.len() ==> k < #[trigger] log2(bs[i].len()) <= ris_len + k
}

/// The transcript state at the start of step `i` of the proof.
pub open spec fn vstart<F: BinaryField>(config: VerifierConfig, proof: FinalizedLigeritoProof<F>, i: nat) -> FsState {
    fs_step_start(
        proof.initial_ligero_cm.root@,
        commitment_roots(proof.recursive_commitments@),
        proof.sumcheck_transcript.tr@,
        config.initial_k as nat,
        config.ks@,
        pow2((config.initial_dim + 2) as nat) as usize,
        verifier_rows(config),
        i,
    )
}

/// The transcript state before round `j` of step `i`.
pub open spec fn vfolds<F: BinaryField>(config: VerifierConfig, proof: FinalizedLigeritoProof<F>, i: nat, j: nat) -> FsState {
    fs_folds(vstart(config, proof, i), proof.sumcheck_transcript.tr@, step_entry(config.ks@, i), j)
}

/// The challenges of step `i`.
pub open spec fn vchallenges<F: BinaryField>(config: VerifierConfig, proof: FinalizedLigeritoProof<F>, i: nat) -> Seq<F> {
    step_challenges(
        proof.initial_ligero_cm.root@,
        commitment_roots(proof.recursive_commitments@),
        proof.sumcheck_transcript.tr@,
        config.initial_k as nat,
        config.ks@,
        pow2((config.initial_dim + 2) as nat) as usize,
        verifier_rows(config),
        i,
    )
}

/// The challenges of the steps before step `n`, in order.
pub open spec fn challenges_before<F: BinaryField>(config: VerifierConfig, proof: FinalizedLigeritoProof<F>, n: nat) -> Seq<F>
    decreases n,
{
    if n == 0 {
        Seq::empty()
    } else {
        challenges_before(config, proof, (n - 1) as nat) + vchallenges(config, proof, (n - 1) as nat)
    }
}

/// The queries drawn after the rounds of a step `i` that is not the last,
/// and the transcript state after them.
pub open spec fn step_query_state<F: BinaryField>(config: VerifierConfig, proof: FinalizedLigeritoProof<F>, i: nat) -> (Seq<usize>, FsState) {
    let f = vfolds(config, proof, i, config.ks@[i as int] as nat);
    fs_draw(fs_absorb(f, commitment_roots(proof.recursive_commitments@)[i + 1 as int]), verifier_rows(config)[i as int])
}

/// The transcript state from which the separation challenge of step `i` is
/// squeezed.
pub open spec fn beta_state<F: BinaryField>(config: VerifierConfig, proof: FinalizedLigeritoProof<F>, i: nat) -> FsState {
    let q = step_query_state(config, proof, i);
    fs_absorb(fs_squeeze(q.1), round_bytes(proof.sumcheck_transcript.tr@[step_entry(config.ks@, i + 1) - 1]))
}

/// The separation challenges after `n` steps: one, then one per step.
pub open spec fn seps_upto<F: BinaryField>(config: VerifierConfig, proof: FinalizedLigeritoProof<F>, n: nat) -> Seq<F> {
    Seq::new(
        n + 1,
        |t: int| if t == 0 { F::spec_one() } else { fs_challenge::<F>(beta_state(config, proof, (t - 1) as nat)) },
    )
}

/// The running polynomial before round `j` of step `i`.
pub open spec fn running_before<F: BinaryField>(config: VerifierConfig, proof: FinalizedLigeritoProof<F>, i: nat, j: nat) -> QuadraticPoly<F> {
    let tr = proof.sumcheck_transcript.tr@;
    let e = step_entry(config.ks@, i);
    if j > 0 {
        round_poly(tr[e + j - 1])
    } else if i == 0 {
        round_poly(tr[0])
    } else {
        spec_fold_quadratic(
            round_poly(tr[e - 2]),
            round_poly(tr[e - 1]),
            fs_challenge::<F>(beta_state(config, proof, (i - 1) as nat)),
        )
    }
}

/// Round `j` of step `i` passes: the challenge can be squeezed, and the
/// round values exist and add up to the running polynomial at it.
pub open spec fn round_ok<F: BinaryField>(config: VerifierConfig, proof: FinalizedLigeritoProof<F>, i: nat, j: nat) -> bool {
    let st = vfolds(config, proof, i, j);
    let tr = proof.sumcheck_transcript.tr@;
    let at = step_entry(config.ks@, i) + j;
    &&& st.1 < u32::MAX
    &&& at < tr.len()
    &&& F::spec_add(tr[at].0, tr[at].1) == spec_eval_quadratic(running_before(config, proof, i, j), fs_challenge::<F>(st))
}

/// Every round of step `i` passes.
pub open spec fn rounds_ok<F: BinaryField>(config: VerifierConfig, proof: FinalizedLigeritoProof<F>, i: nat) -> bool {
    forall|j: nat| j < config.ks@[i as int] ==> #[trigger] round_ok(config, proof, i, j)
}

/// The transcript state after the first `k0` challenges.
pub open spec fn initial_state<F: BinaryField>(config: VerifierConfig, proof: FinalizedLigeritoProof<F>) -> FsState {
    after_squeezes(spec_u32_to_le_bytes(1234) + proof.initial_ligero_cm.root@, 0, config.initial_k as nat)
}

/// The first `k0` challenges.
pub open spec fn initial_challenges<F: BinaryField>(config: VerifierConfig, proof: FinalizedLigeritoProof<F>) -> Seq<F> {
    Seq::new(
        config.initial_k as nat,
        |j: int|
            fs_challenge::<F>(after_squeezes(spec_u32_to_le_bytes(1234) + proof.initial_ligero_cm.root@, 0, j as nat)),
    )
}

/// The queries of the first opening and the transcript state after them.
pub open spec fn initial_query_state<F: BinaryField>(config: VerifierConfig, proof: FinalizedLigeritoProof<F>) -> (Seq<usize>, FsState) {
    fs_draw(
        fs_absorb(initial_state(config, proof), proof.recursive_commitments@[0].root@),
        pow2((config.initial_dim + 2) as nat) as usize,
    )
}

/// The basis polynomial that the opening before step `i` induces: the
/// first opening for `i == 0`, else the opening of step `i - 1`.
pub open spec fn basis_view<F: BinaryField>(config: VerifierConfig, proof: FinalizedLigeritoProof<F>, i: nat) -> Seq<F> {
    if i == 0 {
        let q = initial_query_state(config, proof);
        spec_induced_basis(
            config.initial_dim as nat,
            sks_seq::<F>(config.initial_dim as nat),
            sorted_of(q.0),
            fs_challenge::<F>(q.1),
            proof.initial_ligero_proof.opened_rows@.len(),
        )
    } else {
        let q = step_query_state(config, proof, (i - 1) as nat);
        let d = config.log_dims@[i - 1] as nat;
        spec_induced_basis(
            d,
            sks_seq::<F>(d),
            sorted_of(q.0),
            fs_challenge::<F>(q.1),
            proof.recursive_proofs@[i - 1].opened_rows@.len(),
        )
    }
}

/// The basis polynomials of the first `n` openings.
pub open spec fn basis_upto<F: BinaryField>(config: VerifierConfig, proof: FinalizedLigeritoProof<F>, n: nat) -> Seq<Seq<F>> {
    Seq::new(n, |t: int| basis_view(config, proof, t as nat))
}

/// Every row has `2^k` entries.
pub open spec fn rows_of_len<F>(rows: Seq<Vec<F>>, k: nat) -> bool {
    forall|t: int| 0 <= t < rows.len() ==> (#[trigger] rows[t])@.len() == pow2(k)
}

/// The checks before the first step: the commitments are there, the first
/// opening is drawn and passes the Merkle check, its rows have the right
/// shape, and the first round values add up to the sum the rows enforce.
pub open spec fn initial_accepts<F: BinaryField>(config: VerifierConfig, proof: FinalizedLigeritoProof<F>) -> bool {
    let q = initial_query_state(config, proof);
    let rows = proof.initial_ligero_proof.opened_rows@;
    let tr = proof.sumcheck_transcript.tr@;
    let h = spec_enforced_sum(
        rows_view(rows),
        spec_lagrange_basis(initial_challenges::<F>(config, proof), config.initial_k as nat),
        fs_challenge::<F>(q.1),
        rows.len(),
    );
    &&& proof.recursive_commitments@.len() >= config.recursive_steps
    &&& q.0.len() >= NUM_QUERIES
    &&& spec_verify(
        proof.initial_ligero_cm.root@,
        views(proof.initial_ligero_proof.merkle_proof@),
        (config.initial_dim + 2) as nat,
        rows_bytes(rows),
        sorted_of(q.0),
    )
    &&& q.1.1 < u32::MAX
    &&& rows.len() == NUM_QUERIES
    &&& rows_of_len(rows, config.initial_k as nat)
    &&& tr.len() >= 1
    &&& F::spec_add(tr[0].0, tr[0].1) == h
}

/// The checks of a step `i` that is not the last: its rounds, the opening
/// of its matrix at the queries drawn after the next root, the shape of the
/// rows, the round values of the introduced basis polynomial against the
/// sum the rows enforce, and a separation challenge.
pub open spec fn step_accepts<F: BinaryField>(config: VerifierConfig, proof: FinalizedLigeritoProof<F>, i: nat) -> bool {
    let q = step_query_state(config, proof, i);
    let rp = proof.recursive_proofs@[i as int];
    let rows = rp.opened_rows@;
    let tr = proof.sumcheck_transcript.tr@;
    let at = step_entry(config.ks@, i + 1) - 1;
    let rs = vchallenges(config, proof, i);
    let h = spec_enforced_sum(rows_view(rows), spec_lagrange_basis(rs, rs.len()), fs_challenge::<F>(q.1), rows.len());
    &&& rounds_ok(config, proof, i)
    &&& proof.recursive_proofs@.len() >= i + 1
    &&& q.0.len() >= NUM_QUERIES
    &&& spec_verify(
        proof.recursive_commitments@[i as int].root@,
        views(rp.merkle_proof@),
        (config.log_dims@[i as int] + 2) as nat,
        rows_bytes(rows),
        sorted_of(q.0),
    )
    &&& q.1.1 < u32::MAX
    &&& rows.len() == NUM_QUERIES
    &&& rows_of_len(rows, config.ks@[i as int] as nat)
    &&& at < tr.len()
    &&& F::spec_add(tr[at].0, tr[at].1) == h
    &&& beta_state(config, proof, i).1 < u32::MAX
}

/// The final partial sumcheck check at the last challenge `r`: the values
/// `yr` folded at `r`, against the basis polynomials partially evaluated
/// at all challenges, give the running polynomial at `r`.
pub open spec fn final_sumcheck_ok<F: BinaryField>(config: VerifierConfig, proof: FinalizedLigeritoProof<F>, r: F) -> bool {
    let steps = config.recursive_steps as nat;
    let last = (steps - 1) as nat;
    let fe = spec_partial_eval(proof.final_ligero_proof.yr@, seq![r]);
    let k = log2(fe.len());
    let bs = basis_upto(config, proof, steps);
    let ris = challenges_before(config, proof, steps);
    &&& fe.len() >= 1
    &&& fe.len() == pow2(k)
    &&& basis_views_fit(bs, ris.len() + 1, k)
    &&& spec_inner(fe, eval_basis_partial_views(bs, seps_upto(config, proof, last), ris.push(r), k, bs.len()))
        == spec_eval_quadratic(running_before(config, proof, last, config.ks@[last as int] as nat), r)
}

/// The checks of the last step: its rounds, the final opening at the
/// queries drawn after `yr`, the shape of `yr`, the row check of the
/// opened rows against `yr`, and the final partial sumcheck check.
pub open spec fn final_accepts<F: BinaryField>(config: VerifierConfig, proof: FinalizedLigeritoProof<F>) -> bool {
    let last = (config.recursive_steps - 1) as nat;
    let yr = proof.final_ligero_proof.yr@;
    let rows = proof.final_ligero_proof.opened_rows@;
    let f = vfolds(config, proof, last, config.ks@[last as int] as nat);
    let q = fs_draw(fs_absorb(f, elems_bytes(yr)), verifier_rows(config)[last as int]);
    let qs = sorted_of(q.0);
    let rs = vchallenges(config, proof, last);
    &&& rounds_ok(config, proof, last)
    &&& q.0.len() >= NUM_QUERIES
    &&& spec_verify(
        proof.recursive_commitments@[last as int].root@,
        views(proof.final_ligero_proof.merkle_proof@),
        (config.log_dims@[last as int] + 2) as nat,
        rows_bytes(rows),
        qs,
    )
    &&& yr.len() >= 2
    &&& is_pow2(yr.len())
    &&& yr.len() < F::spec_order()
    &&& rows.len() <= NUM_QUERIES
    &&& forall|t: int|
        0 <= t < rows.len() ==> #[trigger] row_check(
            rows[t]@,
            spec_lagrange_basis(rs, rs.len()),
            yr,
            qs[t],
            log2(yr.len()),
        )
    &&& q.1.1 < u32::MAX
    &&& final_sumcheck_ok(config, proof, fs_challenge::<F>(q.1))
}

/// The checks of step `i` and of every later step.
pub open spec fn steps_accept_from<F: BinaryField>(config: VerifierConfig, proof: FinalizedLigeritoProof<F>, i: nat) -> bool
    decreases config.recursive_steps - i,
{
    if i + 1 >= config.recursive_steps {
        final_accepts(config, proof)
    } else {
        step_accepts(config, proof, i) && steps_accept_from(config, proof, i + 1)
    }
}

/// Whether the verifier accepts `proof`: the checks before the first step
/// and those of every step pass.
pub open spec fn spec_ligerito_verify<F: BinaryField>(config: VerifierConfig, proof: FinalizedLigeritoProof<F>) -> bool {
    initial_accepts(config, proof) && steps_accept_from(config, proof, 0)
}

/// The bytes of each row.
fn rows_to_bytes<F: BinaryField>(rows: &Vec<Vec<F>>) -> (r: Vec<Vec<u8>>)
    ensures
        views(r@) == rows_bytes(rows@),
{
    let mut out: Vec<Vec<u8>> = Vec::with_capacity(rows.len());
    let mut i: usize = 0;
    while i < rows.len()
        invariant
            i <= rows@.len(),
            views(out@) == rows_bytes(rows@).subrange(0, i as int),
        decreases rows@.len() - i,
    {
        let b = elems_to_bytes(rows[i].as_slice());
        let ghost before = views(out@);
        out.push(b);
        proof {
            assert(views(out@) =~= before.push(b@));
            assert(views(out@) =~= rows_bytes(rows@).subrange(0, i + 1));
        }
        i = i + 1;
    }
    assert(views(out@) =~= rows_bytes(rows@));
    out
}

/// Every row has `len` entries.
fn rows_have_len<F: BinaryField>(rows: &Vec<Vec<F>>, len: usize) -> (r: bool)
    ensures
        r == forall|i: int| 0 <= i < rows@.len() ==> (#[trigger] rows@[i])@.len() == len,
{
    let mut i: usize = 0;
    while i < rows.len()
        invariant
            i <= rows@.len(),
            forall|t: int| 0 <= t < i ==> (#[trigger] rows@[t])@.len() == len,
        decreases rows@.len() - i,
    {
        if rows[i].len() != len {
            return false;
        }
        i = i + 1;
    }
    true
}

/// Checks a Ligerito proof: replays the transcript to draw the same
/// challenges and queries as the prover, checks every Merkle opening, the
/// sumcheck rounds, the final rows against `yr`, and the final sumcheck
/// claim. False as soon as a check fails or the proof is malformed: the
/// result is exactly `spec_ligerito_verify`. A failed Merkle opening, row
/// check, sum check or a short transcript gives false; the verifier never
/// panics on a bad proof.
#[verifier::rlimit(100)]
#[verifier::spinoff_prover]
pub fn ligerito_verifier<F: BinaryField>(config: VerifierConfig, proof: FinalizedLigeritoProof<F>) -> (r: bool)
    requires
        verifier_config_ok::<F>(config),
    ensures
        r == spec_ligerito_verify(config, proof),
        r ==> proof.recursive_commitments@.len() >= config.recursive_steps,
        r ==> opening_at(
            proof.initial_ligero_cm.root@,
            proof.initial_ligero_proof.merkle_proof@,
            (config.initial_dim + 2) as nat,
            proof.initial_ligero_proof.opened_rows@,
            initial_draw(
                proof.initial_ligero_cm.root@,
                config.initial_k as nat,
                proof.recursive_commitments@[0].root@,
                pow2((config.initial_dim + 2) as nat) as usize,
            ),
        ),
        r ==> proof.recursive_proofs@.len() + 1 >= config.recursive_steps,
        r ==> forall|j: int|
            0 <= j < config.recursive_steps - 1 ==> #[trigger] opening_at(
                proof.recursive_commitments@[j].root@,
                proof.recursive_proofs@[j].merkle_proof@,
                (config.log_dims@[j] + 2) as nat,
                proof.recursive_proofs@[j].opened_rows@,
                step_draw(
                    proof.initial_ligero_cm.root@,
                    commitment_roots(proof.recursive_commitments@),
                    proof.sumcheck_transcript.tr@,
                    config.initial_k as nat,
                    config.ks@,
                    pow2((config.initial_dim + 2) as nat) as usize,
                    verifier_rows(config),
                    j as nat,
                ),
            ),
        r ==> opening_at(
            proof.recursive_commitments@[config.recursive_steps - 1].root@,
            proof.final_ligero_proof.merkle_proof@,
            (config.log_dims@[config.recursive_steps - 1] + 2) as nat,
            proof.final_ligero_proof.opened_rows@,
            final_draw(
                proof.initial_ligero_cm.root@,
                commitment_roots(proof.recursive_commitments@),
                proof.sumcheck_transcript.tr@,
                config.initial_k as nat,
                config.ks@,
                pow2((config.initial_dim + 2) as nat) as usize,
                verifier_rows(config),
                (config.recursive_steps - 1) as nat,
                elems_bytes(proof.final_ligero_proof.yr@),
            ),
        ),
        r ==> rows_checked_at(
            proof.final_ligero_proof.opened_rows@,
            proof.final_ligero_proof.yr@,
            step_challenges(
                proof.initial_ligero_cm.root@,
                commitment_roots(proof.recursive_commitments@),
                proof.sumcheck_transcript.tr@,
                config.initial_k as nat,
                config.ks@,
                pow2((config.initial_dim + 2) as nat) as usize,
                verifier_rows(config),
                (config.recursive_steps - 1) as nat,
            ),
            final_draw(
                proof.initial_ligero_cm.root@,
                commitment_roots(proof.recursive_commitments@),
                proof.sumcheck_transcript.tr@,
                config.initial_k as nat,
                config.ks@,
                pow2((config.initial_dim + 2) as nat) as usize,
                verifier_rows(config),
                (config.recursive_steps - 1) as nat,
                elems_bytes(proof.final_ligero_proof.yr@),
            ),
        ),
        r ==> proof.final_ligero_proof.yr@.len() >= 2,
        r ==> is_pow2(proof.final_ligero_proof.yr@.len()),
{
    let mut fs = FS::new(1234);
    let s: usize = NUM_QUERIES;
    let log_inv_rate: usize = 2;
    let initial_ligero_cm = &proof.initial_ligero_cm;
    let initial_ligero_proof = &proof.initial_ligero_proof;
    let recursive_commitments = &proof.recursive_commitments;
    let recursive_proofs = &proof.recursive_proofs;
    let final_ligero_proof = &proof.final_ligero_proof;
    fs.absorb(initial_ligero_cm.root.as_slice());
    let ghost t1 = fs.spec_transcript();
    assert(t1 == spec_u32_to_le_bytes(1234) + proof.initial_ligero_cm.root@);
    let ghost root0 = proof.initial_ligero_cm.root@;
    let ghost roots = commitment_roots(proof.recursive_commitments@);
    let ghost tr = proof.sumcheck_transcript.tr@;
    let ghost k0 = config.initial_k as nat;
    let ghost ks = config.ks@;
    let ghost n0 = pow2((config.initial_dim + 2) as nat) as usize;
    let ghost rows = verifier_rows(config);
    let mut partial_evals_0: Vec<F> = Vec::with_capacity(config.initial_k);
    proof {
        if config.initial_k >= 64 {
            lemma2_to64();
            if config.initial_k > 64 {
                lemma_pow2_strictly_increases(64, config.initial_k as nat);
            }
        }
    }
    let mut t: usize = 0;
    while t < config.initial_k
        invariant
            t <= config.initial_k,
            config.initial_k < 64,
            partial_evals_0@.len() == t,
            (fs.spec_transcript(), fs.spec_counter()) == after_squeezes(t1, 0, t as nat),
            fs.spec_counter() == t,
            forall|u: int| 0 <= u < t ==> #[trigger] partial_evals_0@[u] == fs_challenge::<F>(after_squeezes(t1, 0, u as nat)),
        decreases config.initial_k - t,
    {
        match next_field::<F>(&mut fs) {
            Some(v) => partial_evals_0.push(v),
            None => {
                return false;
            },
        }
        t = t + 1;
    }
    assert(partial_evals_0@ =~= initial_challenges::<F>(config, proof));
    if recursive_commitments.len() < config.recursive_steps {
        return false;
    }
    fs.absorb(recursive_commitments[0].root.as_slice());
    proof {
        lemma_pow2_fits((config.initial_dim + 2) as nat);
    }
    let mut depth = config.initial_dim + log_inv_rate;
    proof {
        lemma_pow2_pos(depth as nat);
        lemma2_to64();
    }
    let n_rows = pow2_usize(depth);
    let ghost q0 = initial_query_state::<F>(config, proof);
    assert(fs.spec_transcript() == fs_absorb(initial_state::<F>(config, proof), proof.recursive_commitments@[0].root@).0);
    assert(n_rows == pow2((config.initial_dim + 2) as nat) as usize);
    let queries = match draw_sorted_queries(&mut fs, n_rows, s) {
        Some(q) => q,
        None => {
            return false;
        },
    };
    proof {
        lemma_sorted_of(queries@, q0.0);
        assert((fs.spec_transcript(), fs.spec_counter()) == q0.1);
    }
    let opened_rows_bytes = rows_to_bytes(&initial_ligero_proof.opened_rows);
    proof {
        assert(queries@.to_multiset() == initial_draw(
            proof.initial_ligero_cm.root@,
            config.initial_k as nat,
            proof.recursive_commitments@[0].root@,
            n_rows,
        ).to_multiset());
    }
    let is_valid = verify(
        &initial_ligero_cm.root,
        &initial_ligero_proof.merkle_proof,
        depth,
        &opened_rows_bytes,
        &queries,
    );
    if !is_valid {
        return false;
    }
    let ghost initial_ok = opening_accepted(
        initial_ligero_cm.root@,
        initial_ligero_proof.merkle_proof@,
        (config.initial_dim + 2) as nat,
        initial_ligero_proof.opened_rows@,
    );
    proof {
        assert(spec_verify(
            initial_ligero_cm.root@,
            views(initial_ligero_proof.merkle_proof@),
            (config.initial_dim + 2) as nat,
            rows_bytes(initial_ligero_proof.opened_rows@),
            queries@,
        ));
        assert(initial_ok);
        assert(opening_at(
            proof.initial_ligero_cm.root@,
            proof.initial_ligero_proof.merkle_proof@,
            (config.initial_dim + 2) as nat,
            proof.initial_ligero_proof.opened_rows@,
            initial_draw(
                proof.initial_ligero_cm.root@,
                config.initial_k as nat,
                proof.recursive_commitments@[0].root@,
                pow2((config.initial_dim + 2) as nat) as usize,
            ),
        ));
    }
    let alpha: F = match next_field::<F>(&mut fs) {
        Some(v) => v,
        None => {
            return false;
        },
    };
    proof {
        lemma_pow2_strictly_increases(config.initial_dim as nat, (config.initial_dim + 2) as nat);
        lemma_pow2_is_pow2(config.initial_dim as nat);
    }
    let dim_size = pow2_usize(config.initial_dim);
    let mut sks_vks = eval_sk_at_vks::<F>(dim_size);
    assert(sks_vks@ =~= sks_seq::<F>(config.initial_dim as nat));
    let row_len = pow2_usize(config.initial_k);
    if initial_ligero_proof.opened_rows.len() != queries.len() || !rows_have_len(
        &initial_ligero_proof.opened_rows,
        row_len,
    ) {
        proof {
            if initial_ligero_proof.opened_rows@.len() == NUM_QUERIES {
                assert(!rows_of_len(initial_ligero_proof.opened_rows@, config.initial_k as nat));
            }
        }
        return false;
    }
    let (basis_poly, enforced_sum) = induce_sumcheck_poly(
        config.initial_dim,
        &sks_vks,
        &initial_ligero_proof.opened_rows,
        &partial_evals_0,
        &queries,
        alpha,
    );
    let b1 = MultiLinearPoly::new(basis_poly);
    assert(b1@ == basis_view::<F>(config, proof, 0));
    let (mut sumcheck_verifier, g1) = match SumcheckVerifierInstance::new(b1, enforced_sum, copy_transcript(&proof.sumcheck_transcript.tr)) {
        Some(x) => x,
        None => {
            return false;
        },
    };
    proof {
        assert(initial_accepts::<F>(config, proof));
        assert(sumcheck_verifier.separation_challenges@ =~= seps_upto::<F>(config, proof, 0));
        assert(sumcheck_verifier.ris@ =~= challenges_before::<F>(config, proof, 0));
        assert(polys_are(sumcheck_verifier.basis_polys@, basis_upto::<F>(config, proof, 1)));
    }
    fs.absorb(g1.to_bytes().as_slice());
    proof {
        assert(g1 == QuadraticEvals { e0: tr[0].0, e1: tr[0].1, e2: tr[0].2 });
        assert(roots[0] == proof.recursive_commitments@[0].root@);
        assert(n_rows == n0);
        assert((fs.spec_transcript(), fs.spec_counter()) == fs_step_start(root0, roots, tr, k0, ks, n0, rows, 0));
        assert(step_entry(ks, 0) == 1);
    }
    let mut i: usize = 0;
    while i < config.recursive_steps
        invariant
            0 <= i < config.recursive_steps,
            verifier_config_ok::<F>(config),
            s == NUM_QUERIES,
            log_inv_rate == 2,
            recursive_commitments@.len() >= config.recursive_steps,
            *recursive_commitments == proof.recursive_commitments,
            *recursive_proofs == proof.recursive_proofs,
            *final_ligero_proof == proof.final_ligero_proof,
            sumcheck_verifier.running_poly is Some,
            sumcheck_verifier.separation_challenges@.len() == sumcheck_verifier.basis_polys@.len(),
            opening_at(
                proof.initial_ligero_cm.root@,
                proof.initial_ligero_proof.merkle_proof@,
                (config.initial_dim + 2) as nat,
                proof.initial_ligero_proof.opened_rows@,
                initial_draw(
                    proof.initial_ligero_cm.root@,
                    config.initial_k as nat,
                    proof.recursive_commitments@[0].root@,
                    pow2((config.initial_dim + 2) as nat) as usize,
                ),
            ),
            proof.recursive_proofs@.len() >= i,
            root0 == proof.initial_ligero_cm.root@,
            roots == commitment_roots(proof.recursive_commitments@),
            tr == proof.sumcheck_transcript.tr@,
            k0 == config.initial_k,
            ks == config.ks@,
            n0 == pow2((config.initial_dim + 2) as nat) as usize,
            rows == verifier_rows(config),
            (fs.spec_transcript(), fs.spec_counter()) == fs_step_start(root0, roots, tr, k0, ks, n0, rows, i as nat),
            sumcheck_verifier.tr_reader == step_entry(ks, i as nat),
            sumcheck_verifier.transcript@ == tr,
            spec_ligerito_verify(config, proof) == steps_accept_from(config, proof, i as nat),
            polys_are(sumcheck_verifier.basis_polys@, basis_upto(config, proof, (i + 1) as nat)),
            sumcheck_verifier.separation_challenges@ == seps_upto(config, proof, i as nat),
            sumcheck_verifier.ris@ == challenges_before(config, proof, i as nat),
            sumcheck_verifier.running_poly == Some(running_before(config, proof, i as nat, 0)),
            forall|j: int|
                0 <= j < i ==> #[trigger] opening_at(
                    proof.recursive_commitments@[j].root@,
                    proof.recursive_proofs@[j].merkle_proof@,
                    (config.log_dims@[j] + 2) as nat,
                    proof.recursive_proofs@[j].opened_rows@,
                    step_draw(root0, roots, tr, k0, ks, n0, rows, j as nat),
                ),
        decreases config.recursive_steps - i,
    {
        proof {
            assert(config.ks@[i as int] >= 1);
        }
        let k_i = config.ks[i];
        let mut rs: Vec<F> = Vec::with_capacity(k_i);
        let mut j: usize = 0;
        while j < k_i
            invariant
                j <= k_i,
                rs@.len() == j,
                sumcheck_verifier.running_poly is Some,
                sumcheck_verifier.separation_challenges@.len() == sumcheck_verifier.basis_polys@.len(),
                (fs.spec_transcript(), fs.spec_counter()) == fs_folds(
                    fs_step_start(root0, roots, tr, k0, ks, n0, rows, i as nat),
                    tr,
                    step_entry(ks, i as nat),
                    j as nat,
                ),
                sumcheck_verifier.tr_reader == step_entry(ks, i as nat) + j,
                sumcheck_verifier.transcript@ == tr,
                k_i == ks[i as int],
                forall|t: int|
                    0 <= t < j ==> #[trigger] rs@[t] == step_challenges(root0, roots, tr, k0, ks, n0, rows, i as nat)[t],
                i < config.recursive_steps,
                ks == config.ks@,
                tr == proof.sumcheck_transcript.tr@,
                root0 == proof.initial_ligero_cm.root@,
                roots == commitment_roots(proof.recursive_commitments@),
                k0 == config.initial_k,
                n0 == pow2((config.initial_dim + 2) as nat) as usize,
                rows == verifier_rows(config),
                spec_ligerito_verify(config, proof) == steps_accept_from(config, proof, i as nat),
                polys_are(sumcheck_verifier.basis_polys@, basis_upto(config, proof, (i + 1) as nat)),
                sumcheck_verifier.separation_challenges@ == seps_upto(config, proof, i as nat),
                sumcheck_verifier.ris@ == challenges_before(config, proof, i as nat) + rs@,
                sumcheck_verifier.running_poly == Some(running_before(config, proof, i as nat, j as nat)),
                forall|t: nat| t < j ==> #[trigger] round_ok(config, proof, i as nat, t),
            decreases k_i - j,
        {
            proof {
                assert(vfolds(config, proof, i as nat, j as nat) == (fs.spec_transcript(), fs.spec_counter()));
            }
            let ri: F = match next_field::<F>(&mut fs) {
                Some(v) => v,
                None => {
                    proof {
                        lemma_round_fails(config, proof, i as nat, j as nat);
                    }
                    return false;
                },
            };
            let folded = match sumcheck_verifier.fold(ri) {
                Some(e) => e,
                None => {
                    proof {
                        lemma_round_fails(config, proof, i as nat, j as nat);
                    }
                    return false;
                },
            };
            proof {
                assert(round_ok(config, proof, i as nat, j as nat));
                assert(sumcheck_verifier.ris@ =~= challenges_before(config, proof, i as nat) + rs@.push(ri));
            }
            fs.absorb(folded.to_bytes().as_slice());
            proof {
                let at = step_entry(ks, i as nat) + j;
                assert(folded == QuadraticEvals { e0: tr[at].0, e1: tr[at].1, e2: tr[at].2 });
            }
            rs.push(ri);
            j = j + 1;
        }
        proof {
            assert(rounds_ok(config, proof, i as nat));
            assert(rs@ =~= vchallenges(config, proof, i as nat));
            assert(challenges_before(config, proof, (i + 1) as nat) == sumcheck_verifier.ris@);
        }
        let root = &recursive_commitments[i].root;
        let log_dim = config.log_dims[i];
        proof {
            assert(pow2((config.log_dims@[i as int] + 2) as nat) <= usize::MAX);
            assert(NUM_QUERIES <= pow2((config.log_dims@[i as int] + 2) as nat));
            lemma_pow2_strictly_increases(log_dim as nat, (log_dim + 2) as nat);
            lemma_pow2_pos(log_dim as nat);
            lemma_pow2_fits((log_dim + 2) as nat);
        }
        if i == config.recursive_steps - 1 {
            let yr_u8 = elems_to_bytes(final_ligero_proof.yr.as_slice());
            fs.absorb(yr_u8.as_slice());
            depth = log_dim + log_inv_rate;
            let n_rows = pow2_usize(depth);
            let ghost qf = fs_draw(
                fs_absorb(vfolds(config, proof, i as nat, k_i as nat), elems_bytes(final_ligero_proof.yr@)),
                verifier_rows(config)[i as int],
            );
            proof {
                assert(n_rows == verifier_rows(config)[i as int]);
                assert(i as nat == (config.recursive_steps - 1) as nat);
            }
            let final_queries = match draw_sorted_queries(&mut fs, n_rows, s) {
                Some(q) => q,
                None => {
                    return false;
                },
            };
            proof {
                lemma_sorted_of(final_queries@, qf.0);
                assert((fs.spec_transcript(), fs.spec_counter()) == qf.1);
            }
            let final_rows_bytes = rows_to_bytes(&final_ligero_proof.opened_rows);
            if !verify(root, &final_ligero_proof.merkle_proof, depth, &final_rows_bytes, &final_queries) {
                return false;
            }
            proof {
                assert(spec_verify(
                    root@,
                    views(final_ligero_proof.merkle_proof@),
                    depth as nat,
                    rows_bytes(final_ligero_proof.opened_rows@),
                    final_queries@,
                ));
            }
            let yr = &final_ligero_proof.yr;
            if yr.len() < 2 || !is_power_of_2(yr.len()) {
                return false;
            }
            let yr_log = ilog2(yr.len());
            let bits = F::bits();
            proof {
                crate::binary_fft::lemma_is_pow2_log2(yr@.len());
            }
            if yr_log >= bits {
                proof {
                    if yr_log > bits {
                        lemma_pow2_strictly_increases(bits as nat, yr_log as nat);
                    }
                }
                return false;
            }
            if final_ligero_proof.opened_rows.len() > final_queries.len() {
                return false;
            }
            proof {
                lemma_pow2_strictly_increases(yr_log as nat, bits as nat);
                assert(pow2(k_i as nat) <= usize::MAX);
            }
            if !ligero_verify(&final_queries, &final_ligero_proof.opened_rows, yr, &rs) {
                return false;
            }
            proof {
                assert(rs@ =~= step_challenges(root0, roots, tr, k0, ks, n0, rows, i as nat));
                assert(final_queries@.to_multiset() == final_draw(
                    root0,
                    roots,
                    tr,
                    k0,
                    ks,
                    n0,
                    rows,
                    i as nat,
                    elems_bytes(proof.final_ligero_proof.yr@),
                ).to_multiset());
                assert(rows_checked_at(
                    proof.final_ligero_proof.opened_rows@,
                    proof.final_ligero_proof.yr@,
                    rs@,
                    final_draw(
                        root0,
                        roots,
                        tr,
                        k0,
                        ks,
                        n0,
                        rows,
                        i as nat,
                        elems_bytes(proof.final_ligero_proof.yr@),
                    ),
                ));
            }
            let final_r: F = match next_field::<F>(&mut fs) {
                Some(v) => v,
                None => {
                    return false;
                },
            };
            let f = MultiLinearPoly::new(crate::multilinear_poly::copy_vec(yr));
            proof {
                crate::binary_fft::lemma_is_pow2_log2(yr@.len());
                if f.spec_num_vars() == 0 {
                    lemma2_to64();
                }
            }
            let frs: Vec<F> = vec![final_r];
            assert(frs@ =~= seq![final_r]);
            let partial_eval = f.partial_eval(frs.as_slice());
            let f_eval = crate::multilinear_poly::copy_vec(partial_eval.evals());
            proof {
                assert(final_queries@.to_multiset() == final_draw(
                    root0,
                    roots,
                    tr,
                    k0,
                    ks,
                    n0,
                    rows,
                    i as nat,
                    elems_bytes(proof.final_ligero_proof.yr@),
                ).to_multiset());
                assert(roots[i as int] == proof.recursive_commitments@[i as int].root@);
                assert(opening_at(
                    proof.recursive_commitments@[config.recursive_steps - 1].root@,
                    proof.final_ligero_proof.merkle_proof@,
                    (config.log_dims@[config.recursive_steps - 1] + 2) as nat,
                    proof.final_ligero_proof.opened_rows@,
                    final_draw(
                        root0,
                        roots,
                        tr,
                        k0,
                        ks,
                        n0,
                        rows,
                        i as nat,
                        elems_bytes(proof.final_ligero_proof.yr@),
                    ),
                ));
            }
            let ghost bs = sumcheck_verifier.basis_polys@;
            proof {
                assert(f_eval@ == spec_partial_eval(final_ligero_proof.yr@, seq![final_r]));
                lemma_basis_partial_views(
                    bs,
                    basis_upto(config, proof, (i + 1) as nat),
                    sumcheck_verifier.separation_challenges@,
                    sumcheck_verifier.ris@.push(final_r),
                    log2(f_eval@.len() as nat),
                    bs.len() as nat,
                );
                assert(running_before(config, proof, i as nat, k_i as nat) == running_before(
                    config,
                    proof,
                    (config.recursive_steps - 1) as nat,
                    config.ks@[(config.recursive_steps - 1) as int] as nat,
                ));
            }
            let res = sumcheck_verifier.verify_partial(final_r, f_eval);
            proof {
                assert(res == final_sumcheck_ok(config, proof, final_r));
                assert(res == final_accepts(config, proof));
            }
            return res;
        }
        if recursive_commitments.len() < i + 2 || recursive_proofs.len() < i + 1 {
            return false;
        }
        fs.absorb(recursive_commitments[i + 1].root.as_slice());
        depth = log_dim + log_inv_rate;
        let liger_proof = &recursive_proofs[i];
        let n_rows = pow2_usize(depth);
        let ghost qs_i = step_query_state(config, proof, i as nat);
        proof {
            assert(n_rows == verifier_rows(config)[i as int]);
            assert(roots[i + 1] == proof.recursive_commitments@[i + 1].root@);
            assert(steps_accept_from(config, proof, i as nat) == (step_accepts(config, proof, i as nat)
                && steps_accept_from(config, proof, (i + 1) as nat)));
        }
        let step_queries = match draw_sorted_queries(&mut fs, n_rows, s) {
            Some(q) => q,
            None => {
                return false;
            },
        };
        proof {
            lemma_sorted_of(step_queries@, qs_i.0);
            assert((fs.spec_transcript(), fs.spec_counter()) == qs_i.1);
        }
        let liger_opened_rows_bytes = rows_to_bytes(&liger_proof.opened_rows);
        if !verify(root, &liger_proof.merkle_proof, depth, &liger_opened_rows_bytes, &step_queries) {
            return false;
        }
        proof {
            assert(spec_verify(
                root@,
                views(liger_proof.merkle_proof@),
                depth as nat,
                rows_bytes(liger_proof.opened_rows@),
                step_queries@,
            ));
            assert(roots[i + 1] == proof.recursive_commitments@[i + 1].root@);
            assert(rows[i as int] == n_rows);
            assert(step_queries@.to_multiset() == step_draw(root0, roots, tr, k0, ks, n0, rows, i as nat).to_multiset());
            assert(opening_at(
                proof.recursive_commitments@[i as int].root@,
                proof.recursive_proofs@[i as int].merkle_proof@,
                (config.log_dims@[i as int] + 2) as nat,
                proof.recursive_proofs@[i as int].opened_rows@,
                step_draw(root0, roots, tr, k0, ks, n0, rows, i as nat),
            ));
        }
        let alpha: F = match next_field::<F>(&mut fs) {
            Some(v) => v,
            None => {
                return false;
            },
        };
        proof {
            lemma_pow2_is_pow2(log_dim as nat);
        }
        let dim_size = pow2_usize(log_dim);
        sks_vks = eval_sk_at_vks::<F>(dim_size);
        assert(sks_vks@ =~= sks_seq::<F>(log_dim as nat));
        let row_len = pow2_usize(k_i);
        if liger_proof.opened_rows.len() != step_queries.len() || !rows_have_len(&liger_proof.opened_rows, row_len) {
            proof {
                if liger_proof.opened_rows@.len() == NUM_QUERIES {
                    assert(!rows_of_len(liger_proof.opened_rows@, k_i as nat));
                }
            }
            return false;
        }
        let (basis_poly, enforced_sum) = induce_sumcheck_poly(
            log_dim,
            &sks_vks,
            &liger_proof.opened_rows,
            &rs,
            &step_queries,
            alpha,
        );
        let bi = MultiLinearPoly::new(basis_poly);
        proof {
            assert(bi@ == basis_view(config, proof, (i + 1) as nat));
            assert(ks_sum(ks, (i + 1) as nat) == ks_sum(ks, i as nat) + ks[i as int]);
            assert(sumcheck_verifier.tr_reader == step_entry(ks, (i + 1) as nat) - 1);
        }
        let ghost basis_before = sumcheck_verifier.basis_polys@;
        let gl_i = match sumcheck_verifier.introduce_new(bi, enforced_sum) {
            Some(e) => e,
            None => {
                return false;
            },
        };
        fs.absorb(gl_i.to_bytes().as_slice());
        proof {
            assert((fs.spec_transcript(), fs.spec_counter()) == beta_state(config, proof, i as nat));
        }
        let beta: F = match next_field::<F>(&mut fs) {
            Some(v) => v,
            None => {
                return false;
            },
        };
        sumcheck_verifier.glue(beta);
        proof {
            assert(step_accepts(config, proof, i as nat));
            assert(sumcheck_verifier.separation_challenges@ =~= seps_upto(config, proof, (i + 1) as nat));
            assert(sumcheck_verifier.basis_polys@ == basis_before.push(bi));
            assert forall|t: int| 0 <= t < sumcheck_verifier.basis_polys@.len() implies (#[trigger] sumcheck_verifier.basis_polys@[t])@
                == basis_upto(config, proof, (i + 2) as nat)[t] && sumcheck_verifier.basis_polys@[t].spec_num_vars()
                == log2(basis_upto(config, proof, (i + 2) as nat)[t].len()) by {
                if t < i + 1 {
                    assert(basis_before[t]@ == basis_upto(config, proof, (i + 1) as nat)[t] && basis_before[t].spec_num_vars()
                        == log2(basis_upto(config, proof, (i + 1) as nat)[t].len()));
                }
            }
            assert(running_before(config, proof, (i + 1) as nat, 0) == spec_fold_quadratic(
                running_before(config, proof, i as nat, k_i as nat),
                round_poly(tr[step_entry(ks, (i + 1) as nat) - 1]),
                beta,
            ));
        }
        proof {
            let at = step_entry(ks, (i + 1) as nat) - 1;
            assert(ks_sum(ks, (i + 1) as nat) == ks_sum(ks, i as nat) + ks[i as int]);
            assert(gl_i == QuadraticEvals { e0: tr[at].0, e1: tr[at].1, e2: tr[at].2 });
            assert((fs.spec_transcript(), fs.spec_counter()) == fs_step_start(
                root0,
                roots,
                tr,
                k0,
                ks,
                n0,
                rows,
                (i + 1) as nat,
            ));
        }
        i = i + 1;
    }
    false
}

/// The drawn queries in increasing order are the increasing sequence with
/// the same elements.
pub(crate) proof fn lemma_sorted_of(q: Seq<usize>, drawn: Seq<usize>)
    requires
        strictly_increasing(q),
        q.to_multiset() == drawn.to_multiset(),
    ensures
        sorted_of(drawn) == q,
{
    broadcast use vstd::seq_lib::group_to_multiset_ensures;

    let q2 = sorted_of(drawn);
    assert(strictly_increasing(q2) && q2.to_multiset() == drawn.to_multiset());
    assert(q2.to_multiset().len() == q.to_multiset().len());
    assert(q2.len() == q.len());
    assert forall|x: usize| q2.contains(x) <==> q.contains(x) by {
        assert(q2.to_multiset().count(x) == q.to_multiset().count(x));
    }
    lemma_sorted_same_elements(q2, q);
}

/// The partial evaluation of the basis polynomials reads only their
/// evaluations and numbers of variables.
proof fn lemma_basis_partial_views<F: BinaryField>(
    a: Seq<MultiLinearPoly<F>>,
    b: Seq<Seq<F>>,
    seps: Seq<F>,
    ris: Seq<F>,
    k: nat,
    count: nat,
)
    requires
        polys_are(a, b),
        count <= a.len(),
        count >= 1,
    ensures
        spec_eval_basis_partial(a, seps, ris, k, count) == eval_basis_partial_views(b, seps, ris, k, count),
        basis_fits_partial(a, ris.len(), k) == basis_views_fit(b, ris.len(), k),
    decreases count,
{
    assert(a[0]@ == b[0] && a[0].spec_num_vars() == log2(b[0].len()));
    if count > 1 {
        lemma_basis_partial_views(a, b, seps, ris, k, (count - 1) as nat);
        let i = count - 1;
        assert(a[i]@ == b[i] && a[i].spec_num_vars() == log2(b[i].len()));
    }
    let n = ris.len();
    if basis_fits_partial(a, n, k) {
        assert forall|i: int| 1 <= i < b.len() implies k < #[trigger] log2(b[i].len()) <= n + k by {
            assert(a[i]@ == b[i] && a[i].spec_num_vars() == log2(b[i].len()));
        }
    }
    if basis_views_fit(b, n, k) {
        assert forall|i: int| 1 <= i < a.len() implies k < #[trigger] a[i].spec_num_vars() <= n + k by {
            assert(a[i]@ == b[i] && a[i].spec_num_vars() == log2(b[i].len()));
        }
    }
}

/// A failing round of step `i` makes the checks from step `i` on fail.
proof fn lemma_round_fails<F: BinaryField>(config: VerifierConfig, proof: FinalizedLigeritoProof<F>, i: nat, j: nat)
    requires
        i < config.recursive_steps,
        j < config.ks@[i as int],
        !round_ok(config, proof, i, j),
    ensures
        !steps_accept_from(config, proof, i),
{
    assert(!rounds_ok(config, proof, i));
    if i + 1 >= config.recursive_steps {
        assert(i == (config.recursive_steps - 1) as nat);
    }
}

/// Two strictly increasing sequences with the same elements are equal.
proof fn lemma_sorted_same_elements(a: Seq<usize>, b: Seq<usize>)
    requires
        strictly_increasing(a),
        strictly_increasing(b),
        a.len() == b.len(),
        forall|x: usize| a.contains(x) <==> b.contains(x),
    ensures
        a == b,
    decreases a.len(),
{
    if a.len() > 0 {
        assert(b.contains(a[0]));
        assert(a.contains(b[0]));
        let i = choose|i: int| 0 <= i < b.len() && b[i] == a[0];
        let j = choose|j: int| 0 <= j < a.len() && a[j] == b[0];
        if i > 0 {
            assert(b[0] < b[i]);
        }
        if j > 0 {
            assert(a[0] < a[j]);
        }
        assert(a[0] == b[0]);
        let a2 = a.drop_first();
        let b2 = b.drop_first();
        assert forall|x: usize| a2.contains(x) <==> b2.contains(x) by {
            if a2.contains(x) {
                let k = choose|k: int| 0 <= k < a2.len() && a2[k] == x;
                assert(a[k + 1] == x);
                assert(a[0] < a[k + 1]);
                assert(a.contains(x));
                let m = choose|m: int| 0 <= m < b.len() && b[m] == x;
                assert(m != 0);
                assert(b2[m - 1] == x);
            }
            if b2.contains(x) {
                let k = choose|k: int| 0 <= k < b2.len() && b2[k] == x;
                assert(b[k + 1] == x);
                assert(b[0] < b[k + 1]);
                assert(b.contains(x));
                let m = choose|m: int| 0 <= m < a.len() && a[m] == x;
                assert(m != 0);
                assert(a2[m - 1] == x);
            }
        }
        assert forall|p: int, q: int| 0 <= p < q < a2.len() implies #[trigger] a2[p] < #[trigger] a2[q] by {
            assert(a[p + 1] < a[q + 1]);
        }
        assert forall|p: int, q: int| 0 <= p < q < b2.len() implies #[trigger] b2[p] < #[trigger] b2[q] by {
            assert(b[p + 1] < b[q + 1]);
        }
        lemma_sorted_same_elements(a2, b2);
        assert forall|k: int| 0 <= k < a.len() implies a[k] == b[k] by {
            if k > 0 {
                assert(a[k] == a2[k - 1]);
                assert(b[k] == b2[k - 1]);
            }
        }
        assert(a =~= b);
    }
}

/// An opening made at the drawn queries passes the Merkle check at those
/// queries taken in increasing order: the prover's first opening (see
/// `prover`) passes the verifier's first Merkle check (see
/// `ligerito_verifier`), both drawing the same queries from the same
/// transcript.
pub proof fn lemma_opening_passes_drawn_check<F: BinaryField>(
    root: Seq<u8>,
    proof: Seq<Vec<u8>>,
    depth: nat,
    rows: Seq<Vec<F>>,
    drawn: Seq<usize>,
    qs: Seq<usize>,
)
    requires
        opening_at(root, proof, depth, rows, drawn),
        strictly_increasing(qs),
        qs.to_multiset() == drawn.to_multiset(),
    ensures
        spec_verify(root, views(proof), depth, rows_bytes(rows), qs),
{
    broadcast use vstd::seq_lib::group_to_multiset_ensures;

    let q2 = choose|q2: Seq<usize>|
        {
            &&& q2.len() == NUM_QUERIES
            &&& strictly_increasing(q2)
            &&& q2.to_multiset() == drawn.to_multiset()
            &&& #[trigger] spec_verify(root, views(proof), depth, rows_bytes(rows), q2)
        };
    assert(q2.to_multiset() == qs.to_multiset());
    assert(q2.to_multiset().len() == qs.to_multiset().len());
    assert(q2.len() == qs.len());
    assert forall|x: usize| q2.contains(x) <==> qs.contains(x) by {
        assert(q2.to_multiset().count(x) == qs.to_multiset().count(x));
    }
    lemma_sorted_same_elements(q2, qs);
}

/// `a` and `b` both have at least `n` entries and agree on the first `n`.
pub open spec fn agree_below<A>(a: Seq<A>, b: Seq<A>, n: int) -> bool {
    &&& 0 <= n <= a.len()
    &&& n <= b.len()
    &&& forall|k: int| 0 <= k < n ==> a[k] == b[k]
}

/// The rounds read only the entries they absorb.
pub proof fn lemma_fs_folds_frame<F: BinaryField>(
    st: FsState,
    tr1: Seq<(F, F, F)>,
    tr2: Seq<(F, F, F)>,
    start: int,
    k: nat,
)
    requires
        start >= 0,
        agree_below(tr1, tr2, start + k),
    ensures
        fs_folds(st, tr1, start, k) == fs_folds(st, tr2, start, k),
    decreases k,
{
    if k > 0 {
        lemma_fs_folds_frame(st, tr1, tr2, start, (k - 1) as nat);
        assert(tr1[start + k - 1] == tr2[start + k - 1]);
    }
}

/// The state at the start of step `i` reads only the first `i + 1` roots
/// and the round values before step `i`.
pub proof fn lemma_fs_step_start_frame<F: BinaryField>(
    root0: Seq<u8>,
    roots1: Seq<Seq<u8>>,
    roots2: Seq<Seq<u8>>,
    tr1: Seq<(F, F, F)>,
    tr2: Seq<(F, F, F)>,
    k0: nat,
    ks: Seq<usize>,
    n0: usize,
    rows: Seq<usize>,
    i: nat,
)
    requires
        i <= ks.len(),
        agree_below(roots1, roots2, (i + 1) as int),
        agree_below(tr1, tr2, step_entry(ks, i)),
    ensures
        fs_step_start(root0, roots1, tr1, k0, ks, n0, rows, i) == fs_step_start(root0, roots2, tr2, k0, ks, n0, rows, i),
    decreases i,
{
    if i == 0 {
        assert(roots1[0] == roots2[0]);
        assert(tr1[0] == tr2[0]);
    } else {
        let j = (i - 1) as nat;
        assert(ks_sum(ks, i) == ks_sum(ks, j) + ks[j as int]);
        lemma_fs_step_start_frame(root0, roots1, roots2, tr1, tr2, k0, ks, n0, rows, j);
        lemma_fs_folds_frame(
            fs_step_start(root0, roots1, tr1, k0, ks, n0, rows, j),
            tr1,
            tr2,
            step_entry(ks, j),
            ks[j as int] as nat,
        );
        assert(roots1[i as int] == roots2[i as int]);
        assert(tr1[step_entry(ks, i) - 1] == tr2[step_entry(ks, i) - 1]);
    }
}

/// The queries of step `i` read only the first `i + 2` roots and the round
/// values up to the end of step `i`.
pub proof fn lemma_step_draw_frame<F: BinaryField>(
    root0: Seq<u8>,
    roots1: Seq<Seq<u8>>,
    roots2: Seq<Seq<u8>>,
    tr1: Seq<(F, F, F)>,
    tr2: Seq<(F, F, F)>,
    k0: nat,
    ks: Seq<usize>,
    n0: usize,
    rows: Seq<usize>,
    i: nat,
)
    requires
        i < ks.len(),
        agree_below(roots1, roots2, (i + 2) as int),
        agree_below(tr1, tr2, step_entry(ks, i) + ks[i as int]),
    ensures
        step_draw(root0, roots1, tr1, k0, ks, n0, rows, i) == step_draw(root0, roots2, tr2, k0, ks, n0, rows, i),
{
    lemma_fs_step_start_frame(root0, roots1, roots2, tr1, tr2, k0, ks, n0, rows, i);
    lemma_fs_folds_frame(
        fs_step_start(root0, roots1, tr1, k0, ks, n0, rows, i),
        tr1,
        tr2,
        step_entry(ks, i),
        ks[i as int] as nat,
    );
    assert(roots1[i + 1 as int] == roots2[i + 1 as int]);
}

} // verus!
