//! The sumcheck prover and verifier of Ligerito: a running sumcheck of
//! `f` against a sum of basis polynomials, to which new basis polynomials
//! (with their claimed sums) are glued with random separation challenges.
use crate::binary_fft::log2;
use crate::binary_field::BinaryField;
use crate::multilinear_poly::{
    eval_013_product, evals_at_x, inner_product, spec_eval_013_product, spec_evals_at_three, spec_evals_at_x,
    spec_fold_once, spec_inner, spec_partial_eval, spec_sum, MultiLinearPoly,
};
use crate::sumcheck::{
    lemma_add_swap_mid, lemma_double_round, lemma_round_quadratic_lin, spec_round_quadratic,
    fold_quadratic, lemma_three_is_valid, quadratic_from_evals, spec_eval_quadratic, spec_fold_quadratic,
    spec_quadratic_from_evals, spec_three, QuadraticEvals, QuadraticPoly,
};
use vstd::arithmetic::power2::*;
use vstd::prelude::*;

verus! {

/// The evaluations of several polynomials.
pub open spec fn polys_view<F: BinaryField>(ps: Seq<MultiLinearPoly<F>>) -> Seq<Seq<F>> {
    Seq::new(ps.len(), |i: int| ps[i]@)
}

/// The first half of `s`: the first variable fixed to 0.
pub open spec fn half0<F>(s: Seq<F>) -> Seq<F> {
    s.subrange(0, (s.len() / 2) as int)
}

/// The second half of `s`: the first variable fixed to 1.
pub open spec fn half1<F>(s: Seq<F>) -> Seq<F> {
    s.subrange((s.len() / 2) as int, s.len() as int)
}

/// The entrywise left-to-right sum of `ss[0 .. count]` (at least one), over
/// the length of `ss[0]`.
pub open spec fn sum_seqs<F: BinaryField>(ss: Seq<Seq<F>>, count: nat) -> Seq<F>
    decreases count,
{
    if count <= 1 {
        ss[0]
    } else {
        let prev = sum_seqs(ss, (count - 1) as nat);
        Seq::new(prev.len(), |k: int| F::spec_add(prev[k], ss[count - 1][k]))
    }
}

/// The round values of `f` against the sum of the basis polynomials `bs`,
/// with the first variable at 0, at 1 and at `x`.
pub open spec fn spec_eval_01x<F: BinaryField>(f: Seq<F>, bs: Seq<Seq<F>>, x: F) -> (F, F, F) {
    let f0 = half0(f);
    let f1 = half1(f);
    let f2 = spec_evals_at_x(f0, f1, x);
    let b0 = sum_seqs(Seq::new(bs.len(), |i: int| half0(bs[i])), bs.len());
    let b1 = sum_seqs(Seq::new(bs.len(), |i: int| half1(bs[i])), bs.len());
    let b2 = sum_seqs(
        Seq::new(bs.len(), |i: int| spec_evals_at_x(half0(bs[i]), half1(bs[i]), x)),
        bs.len(),
    );
    (spec_inner(f0, b0), spec_inner(f1, b1), spec_inner(f2, b2))
}

/// Every polynomial of `ps` has `n` variables.
pub open spec fn all_num_vars<F: BinaryField>(ps: Seq<MultiLinearPoly<F>>, n: nat) -> bool {
    forall|i: int| 0 <= i < ps.len() ==> #[trigger] ps[i].spec_num_vars() == n
}

/// The evaluations scaled by `alpha`.
pub open spec fn spec_scaled<F: BinaryField>(s: Seq<F>, alpha: F) -> Seq<F> {
    Seq::new(s.len(), |i: int| F::spec_mul(s[i], alpha))
}

/// The round values as a triple.
pub open spec fn triple<F: BinaryField>(e: QuadraticEvals<F>) -> (F, F, F) {
    (e.e0, e.e1, e.e2)
}

/// The prover's side of the running sumcheck.
pub struct SumcheckProverInstance<F: BinaryField> {
    pub f: MultiLinearPoly<F>,
    pub basis_polys: Vec<MultiLinearPoly<F>>,
    pub sum: F,
    pub transcript: Vec<(F, F, F)>,
    pub to_be_glued: Option<MultiLinearPoly<F>>,
}

/// Entrywise `acc[k] + s[k]` over the length of `acc`.
fn add_into<F: BinaryField>(acc: &mut Vec<F>, s: &Vec<F>)
    requires
        old(acc)@.len() <= s@.len(),
    ensures
        final(acc)@ == Seq::new(old(acc)@.len(), |k: int| F::spec_add(old(acc)@[k], s@[k])),
{
    let ghost a0 = acc@;
    let mut k: usize = 0;
    while k < acc.len()
        invariant
            k <= acc@.len(),
            acc@.len() == a0.len(),
            a0.len() <= s@.len(),
            forall|t: int| 0 <= t < k ==> #[trigger] acc@[t] == F::spec_add(a0[t], s@[t]),
            forall|t: int| k <= t < acc@.len() ==> #[trigger] acc@[t] == a0[t],
        decreases acc@.len() - k,
    {
        let a = acc[k];
        let b = s[k];
        acc.set(k, a.add(b));
        k = k + 1;
    }
    assert(acc@ =~= Seq::new(a0.len(), |k: int| F::spec_add(a0[k], s@[k])));
}

proof fn lemma_sum_seqs_len<F: BinaryField>(ss: Seq<Seq<F>>, count: nat)
    requires
        count >= 1,
    ensures
        sum_seqs(ss, count).len() == ss[0].len(),
    decreases count,
{
    if count > 1 {
        lemma_sum_seqs_len(ss, (count - 1) as nat);
    }
}

impl<F: BinaryField> SumcheckProverInstance<F> {
    /// Starts a sumcheck of `f` against `b1` with claimed sum `h1`: `None`
    /// when the first round values do not add up to `h1`. A wrong claimed
    /// sum is an error of the caller: it is reported by `None` here rather
    /// than by a panic.
    pub fn new(f: MultiLinearPoly<F>, b1: MultiLinearPoly<F>, h1: F) -> (r: Option<(Self, QuadraticEvals<F>)>)
        requires
            f.spec_num_vars() == b1.spec_num_vars(),
            f.spec_num_vars() >= 1,
        ensures
            r is None <==> F::spec_add(spec_eval_013_product(f@, b1@).0, spec_eval_013_product(f@, b1@).1) != h1,
            r matches Some((p, e)) ==> {
                &&& p.f == f
                &&& p.basis_polys@ == seq![b1]
                &&& p.sum == h1
                &&& p.transcript@ == seq![spec_eval_013_product(f@, b1@)]
                &&& p.to_be_glued is None
                &&& triple(e) == spec_eval_013_product(f@, b1@)
            },
    {
        let mut transcript: Vec<(F, F, F)> = Vec::new();
        let (s0, s1, s2) = eval_013_product(&f, &b1);
        if !s0.add(s1).equals(&h1) {
            return None;
        }
        transcript.push((s0, s1, s2));
        let quad_evals = QuadraticEvals::new(s0, s1, s2);
        let mut basis_polys: Vec<MultiLinearPoly<F>> = Vec::new();
        basis_polys.push(b1);
        Some((SumcheckProverInstance { f, basis_polys, sum: h1, transcript, to_be_glued: None }, quad_evals))
    }

    /// Introduces the basis polynomial `bi` with claimed sum `h`, to be
    /// glued: `None` (and nothing changes) when its first round values
    /// against `f` do not add up to `h`, reported here rather than by a
    /// panic.
    pub fn introduce_new(&mut self, bi: MultiLinearPoly<F>, h: F) -> (r: Option<QuadraticEvals<F>>)
        requires
            bi.spec_num_vars() == old(self).f.spec_num_vars(),
            old(self).f.spec_num_vars() >= 1,
        ensures
            r is None <==> F::spec_add(
                spec_eval_013_product(old(self).f@, bi@).0,
                spec_eval_013_product(old(self).f@, bi@).1,
            ) != h,
            r is None ==> *final(self) == *old(self),
            r is Some ==> {
                &&& triple(r->0) == spec_eval_013_product(old(self).f@, bi@)
                &&& final(self).transcript@ == old(self).transcript@.push(spec_eval_013_product(old(self).f@, bi@))
                &&& final(self).to_be_glued == Some(bi)
                &&& final(self).f == old(self).f
                &&& final(self).basis_polys@ == old(self).basis_polys@
                &&& final(self).sum == old(self).sum
            },
    {
        let (s0, s1, s2) = eval_013_product(&self.f, &bi);
        if !s0.add(s1).equals(&h) {
            return None;
        }
        self.transcript.push((s0, s1, s2));
        self.to_be_glued = Some(bi);
        Some(QuadraticEvals::new(s0, s1, s2))
    }

    /// Scales the introduced basis polynomial by `alpha` and adds it to the
    /// basis polynomials.
    pub fn glue(&mut self, alpha: F)
        requires
            old(self).to_be_glued is Some,
        ensures
            final(self).basis_polys@.len() == old(self).basis_polys@.len() + 1,
            forall|i: int|
                0 <= i < old(self).basis_polys@.len() ==> #[trigger] final(self).basis_polys@[i] == old(
                    self,
                ).basis_polys@[i],
            final(self).basis_polys@.last()@ == spec_scaled(old(self).to_be_glued->0@, alpha),
            final(self).basis_polys@.last().spec_num_vars() == old(self).to_be_glued->0.spec_num_vars(),
            final(self).to_be_glued is None,
            final(self).f == old(self).f,
            final(self).transcript@ == old(self).transcript@,
            final(self).sum == old(self).sum,
    {
        let mut poly = self.to_be_glued.take().unwrap();
        poly.scale_evals(alpha);
        self.basis_polys.push(poly);
        self.to_be_glued = None;
    }

    /// The round values of `f` against the sum of the basis polynomials,
    /// with the first variable at 0, 1 and `x` (3 when `None`).
    pub fn eval_01x_product(&self, x: Option<F>) -> (r: (F, F, F))
        requires
            self.f.spec_num_vars() >= 1,
            self.basis_polys@.len() >= 1,
            all_num_vars(self.basis_polys@, self.f.spec_num_vars()),
        ensures
            r == spec_eval_01x(
                self.f@,
                polys_view(self.basis_polys@),
                match x {
                    Some(v) => v,
                    None => spec_three::<F>(),
                },
            ),
    {
        proof {
            F::lemma_order();
        }
        let x = match x {
            Some(v) => v,
            None => F::from_usize(3),
        };
        let ghost bs = polys_view(self.basis_polys@);
        let ghost nb = bs.len();
        let ghost h0s = Seq::new(nb, |i: int| half0(bs[i]));
        let ghost h1s = Seq::new(nb, |i: int| half1(bs[i]));
        let ghost h2s = Seq::new(nb, |i: int| spec_evals_at_x(half0(bs[i]), half1(bs[i]), x));
        let nv = self.f.num_vars();
        let val_at_0 = self.f.partial_eval_at_0();
        let val_at_1 = self.f.partial_eval_at_1();
        let f0 = val_at_0.evals();
        let f1 = val_at_1.evals();
        let f2 = evals_at_x(f0, f1, x);
        let _ = self.basis_polys[0].num_vars();
        let b0_poly = self.basis_polys[0].partial_eval_at_0();
        let b1_poly = self.basis_polys[0].partial_eval_at_1();
        let mut b0s_sum = crate::multilinear_poly::copy_vec(b0_poly.evals());
        let mut b1s_sum = crate::multilinear_poly::copy_vec(b1_poly.evals());
        let mut b2s_sum = evals_at_x(&b0s_sum, &b1s_sum, x);
        proof {
            assert(self.basis_polys@[0].spec_num_vars() == nv);
            lemma_pow2_unfold(nv as nat);
            assert(bs[0] == self.basis_polys@[0]@);
            assert(b0s_sum@ == sum_seqs(h0s, 1));
            assert(b1s_sum@ == sum_seqs(h1s, 1));
            assert(b2s_sum@ =~= sum_seqs(h2s, 1));
        }
        let mut i: usize = 1;
        while i < self.basis_polys.len()
            invariant
                1 <= i <= self.basis_polys@.len(),
                nb == self.basis_polys@.len(),
                bs == polys_view(self.basis_polys@),
                h0s == Seq::new(nb, |i: int| half0(bs[i])),
                h1s == Seq::new(nb, |i: int| half1(bs[i])),
                h2s == Seq::new(nb, |i: int| spec_evals_at_x(half0(bs[i]), half1(bs[i]), x)),
                nv == self.f.spec_num_vars(),
                nv >= 1,
                all_num_vars(self.basis_polys@, nv as nat),
                b0s_sum@ == sum_seqs(h0s, i as nat),
                b1s_sum@ == sum_seqs(h1s, i as nat),
                b2s_sum@ == sum_seqs(h2s, i as nat),
                b0s_sum@.len() == pow2((nv - 1) as nat),
                b1s_sum@.len() == pow2((nv - 1) as nat),
                b2s_sum@.len() == pow2((nv - 1) as nat),
            decreases self.basis_polys@.len() - i,
        {
            let bi = &self.basis_polys[i];
            proof {
                assert(bi.spec_num_vars() == nv);
                assert(bs[i as int] == bi@);
            }
            let bni = bi.num_vars();
            proof {
                lemma_pow2_unfold(nv as nat);
            }
            let bi_val_at_0 = bi.partial_eval_at_0();
            let bi_val_at_1 = bi.partial_eval_at_1();
            let b0i = bi_val_at_0.evals();
            let b1i = bi_val_at_1.evals();
            let b2i = evals_at_x(b0i, b1i, x);
            add_into(&mut b0s_sum, b0i);
            add_into(&mut b1s_sum, b1i);
            add_into(&mut b2s_sum, &b2i);
            proof {
                assert(b0s_sum@ =~= sum_seqs(h0s, (i + 1) as nat));
                assert(b1s_sum@ =~= sum_seqs(h1s, (i + 1) as nat));
                assert(b2s_sum@ =~= sum_seqs(h2s, (i + 1) as nat));
            }
            i = i + 1;
        }
        let s0 = inner_product(f0, &b0s_sum);
        let s1 = inner_product(f1, &b1s_sum);
        let s2 = inner_product(&f2, &b2s_sum);
        (s0, s1, s2)
    }

    /// Fixes the first variable of `f` and of every basis polynomial to `r`,
    /// and records the next round values.
    pub fn fold(&mut self, r: F) -> (res: QuadraticEvals<F>)
        requires
            old(self).f.spec_num_vars() >= 2,
            old(self).basis_polys@.len() >= 1,
            all_num_vars(old(self).basis_polys@, old(self).f.spec_num_vars()),
        ensures
            final(self).f@ == spec_partial_eval(old(self).f@, seq![r]),
            final(self).f.spec_num_vars() == old(self).f.spec_num_vars() - 1,
            final(self).basis_polys@.len() == old(self).basis_polys@.len(),
            forall|i: int|
                0 <= i < old(self).basis_polys@.len() ==> #[trigger] final(self).basis_polys@[i]@
                    == spec_partial_eval(old(self).basis_polys@[i]@, seq![r]),
            all_num_vars(final(self).basis_polys@, final(self).f.spec_num_vars()),
            triple(res) == spec_eval_01x(final(self).f@, polys_view(final(self).basis_polys@), spec_three::<F>()),
            final(self).transcript@ == old(self).transcript@.push(triple(res)),
            final(self).sum == old(self).sum,
            final(self).to_be_glued == old(self).to_be_glued,
    {
        let rs: Vec<F> = vec![r];
        assert(rs@ =~= seq![r]);
        self.f = self.f.partial_eval(rs.as_slice());
        let ghost nv = self.f.spec_num_vars();
        let ghost old_bps = self.basis_polys@;
        let mut new_bps: Vec<MultiLinearPoly<F>> = Vec::with_capacity(self.basis_polys.len());
        let mut i: usize = 0;
        while i < self.basis_polys.len()
            invariant
                i <= self.basis_polys@.len(),
                old_bps == self.basis_polys@,
                rs@ == seq![r],
                all_num_vars(old_bps, nv + 1),
                new_bps@.len() == i,
                forall|t: int| 0 <= t < i ==> #[trigger] new_bps@[t]@ == spec_partial_eval(old_bps[t]@, seq![r]),
                forall|t: int| 0 <= t < i ==> #[trigger] new_bps@[t].spec_num_vars() == nv,
            decreases self.basis_polys@.len() - i,
        {
            proof {
                assert(old_bps[i as int].spec_num_vars() == nv + 1);
            }
            let p = self.basis_polys[i].partial_eval(rs.as_slice());
            new_bps.push(p);
            i = i + 1;
        }
        self.basis_polys = new_bps;
        let (s0, s1, s2) = self.eval_01x_product(None);
        self.transcript.push((s0, s1, s2));
        QuadraticEvals::new(s0, s1, s2)
    }
}

/// The basis polynomials evaluated at the challenges: the first at all of
/// `ris`, each later one at the last `num_vars` challenges, scaled by its
/// separation challenge, summed left to right over the first `count`.
pub open spec fn spec_eval_basis_polys<F: BinaryField>(
    ps: Seq<MultiLinearPoly<F>>,
    seps: Seq<F>,
    ris: Seq<F>,
    count: nat,
) -> F
    decreases count,
{
    if count <= 1 {
        spec_partial_eval(ps[0]@, ris)[0]
    } else {
        let i = count - 1;
        let n = ps[i].spec_num_vars();
        F::spec_add(
            spec_eval_basis_polys(ps, seps, ris, (count - 1) as nat),
            F::spec_mul(seps[i], spec_partial_eval(ps[i]@, ris.subrange(ris.len() - n, ris.len() as int))[0]),
        )
    }
}

/// The basis polynomials partially evaluated down to `k` variables: the
/// first at all of `ris`, each later one at the last `num_vars - k`
/// challenges, scaled by its separation challenge, summed entrywise left to
/// right over the first `count`.
pub open spec fn spec_eval_basis_partial<F: BinaryField>(
    ps: Seq<MultiLinearPoly<F>>,
    seps: Seq<F>,
    ris: Seq<F>,
    k: nat,
    count: nat,
) -> Seq<F>
    decreases count,
{
    if count <= 1 {
        spec_partial_eval(ps[0]@, ris)
    } else {
        let i = count - 1;
        let n = ps[i].spec_num_vars();
        let prev = spec_eval_basis_partial(ps, seps, ris, k, (count - 1) as nat);
        let bi = spec_partial_eval(ps[i]@, ris.subrange(ris.len() - (n - k), ris.len() as int));
        Seq::new(prev.len(), |t: int| F::spec_add(prev[t], F::spec_mul(seps[i], bi[t])))
    }
}

/// The challenges `ris` fit the basis polynomials for a full evaluation:
/// the first has at least `ris.len()` variables, each later one between 1
/// and `ris.len()`.
pub open spec fn basis_fits<F: BinaryField>(ps: Seq<MultiLinearPoly<F>>, ris_len: nat) -> bool {
    &&& ps.len() >= 1
    &&& 1 <= ris_len <= ps[0].spec_num_vars()
    &&& forall|i: int| 1 <= i < ps.len() ==> 1 <= #[trigger] ps[i].spec_num_vars() <= ris_len
}

/// The challenges fit the basis polynomials for a partial evaluation down to
/// `k` variables: the first has exactly `ris.len() + k`, each later one more
/// than `k` and at most `ris.len() + k`.
pub open spec fn basis_fits_partial<F: BinaryField>(ps: Seq<MultiLinearPoly<F>>, ris_len: nat, k: nat) -> bool {
    &&& ps.len() >= 1
    &&& 1 <= ris_len
    &&& ps[0].spec_num_vars() == ris_len + k
    &&& forall|i: int| 1 <= i < ps.len() ==> k < #[trigger] ps[i].spec_num_vars() <= ris_len + k
}

/// The verifier's side of the running sumcheck, reading the prover's round
/// values from `transcript`.
pub struct SumcheckVerifierInstance<F: BinaryField> {
    pub basis_polys: Vec<MultiLinearPoly<F>>,
    pub separation_challenges: Vec<F>,
    pub sum: F,
    pub transcript: Vec<(F, F, F)>,
    pub ris: Vec<F>,
    pub tr_reader: usize,
    pub running_poly: Option<QuadraticPoly<F>>,
    pub to_glue: Option<QuadraticPoly<F>>,
}

impl<F: BinaryField> SumcheckVerifierInstance<F> {
    /// Starts verifying a sumcheck against `b1` with claimed sum `h1`:
    /// `None` when the transcript is empty or its first round values do not
    /// add up to `h1`.
    pub fn new(b1: MultiLinearPoly<F>, h1: F, transcript: Vec<(F, F, F)>) -> (r: Option<(Self, QuadraticEvals<F>)>)
        ensures
            r is None <==> (transcript@.len() == 0 || F::spec_add(transcript@[0].0, transcript@[0].1) != h1),
            r matches Some((v, g)) ==> {
                let t = transcript@[0];
                &&& v.basis_polys@ == seq![b1]
                &&& v.separation_challenges@ == seq![F::spec_one()]
                &&& v.sum == h1
                &&& v.transcript@ == transcript@
                &&& v.ris@ == Seq::<F>::empty()
                &&& v.tr_reader == 1
                &&& v.running_poly == Some(spec_quadratic_from_evals(t.0, t.1, t.2, spec_three::<F>()))
                &&& v.to_glue is None
                &&& triple(g) == t
            },
    {
        let mut basis_polys: Vec<MultiLinearPoly<F>> = Vec::new();
        basis_polys.push(b1);
        let mut separation_challenges: Vec<F> = Vec::new();
        separation_challenges.push(F::one());
        let mut verifier = SumcheckVerifierInstance {
            basis_polys,
            separation_challenges,
            sum: h1,
            transcript,
            ris: Vec::new(),
            tr_reader: 0,
            running_poly: None,
            to_glue: None,
        };
        let (g0, g1, g2) = match verifier.read_tr() {
            Some(t) => t,
            None => {
                return None;
            },
        };
        if !g0.add(g1).equals(&verifier.sum) {
            return None;
        }
        proof {
            lemma_three_is_valid::<F>();
        }
        verifier.running_poly = Some(quadratic_from_evals(g0, g1, g2, None));
        Some((verifier, QuadraticEvals::new(g0, g1, g2)))
    }

    /// The next round values of the transcript, or `None` when it is used up.
    pub fn read_tr(&mut self) -> (r: Option<(F, F, F)>)
        ensures
            old(self).tr_reader < old(self).transcript@.len() ==> r == Some(
                old(self).transcript@[old(self).tr_reader as int],
            ) && final(self).tr_reader == old(self).tr_reader + 1,
            old(self).tr_reader >= old(self).transcript@.len() ==> r is None && final(self).tr_reader
                == old(self).tr_reader,
            final(self).basis_polys == old(self).basis_polys,
            final(self).separation_challenges == old(self).separation_challenges,
            final(self).sum == old(self).sum,
            final(self).transcript == old(self).transcript,
            final(self).ris == old(self).ris,
            final(self).running_poly == old(self).running_poly,
            final(self).to_glue == old(self).to_glue,
    {
        if self.tr_reader >= self.transcript.len() {
            return None;
        }
        let (g0, g1, g2) = self.transcript[self.tr_reader];
        self.tr_reader = self.tr_reader + 1;
        Some((g0, g1, g2))
    }

    /// Takes the challenge `r`: the claimed sum becomes the running
    /// polynomial at `r`, and the next round values must add up to it.
    /// `None` when the transcript is used up or they do not.
    pub fn fold(&mut self, r: F) -> (res: Option<QuadraticEvals<F>>)
        requires
            old(self).running_poly is Some,
        ensures
            ({
                let s = spec_eval_quadratic(old(self).running_poly->0, r);
                let tr = old(self).transcript@;
                let at = old(self).tr_reader as int;
                &&& res is None <==> (at >= tr.len() || F::spec_add(tr[at].0, tr[at].1) != s)
                &&& res is Some ==> {
                    &&& triple(res->0) == tr[at]
                    &&& final(self).ris@ == old(self).ris@.push(r)
                    &&& final(self).sum == s
                    &&& final(self).tr_reader == at + 1
                    &&& final(self).running_poly == Some(
                        spec_quadratic_from_evals(tr[at].0, tr[at].1, tr[at].2, spec_three::<F>()),
                    )
                    &&& final(self).basis_polys == old(self).basis_polys
                    &&& final(self).separation_challenges == old(self).separation_challenges
                    &&& final(self).transcript == old(self).transcript
                    &&& final(self).to_glue == old(self).to_glue
                }
            }),
    {
        let running = match &self.running_poly {
            Some(p) => *p,
            None => {
                proof {
                    assert(false);
                }
                return None;
            },
        };
        let s = running.eval_quadratic(r);
        if self.tr_reader >= self.transcript.len() {
            return None;
        }
        let (g0, g1, g2) = self.transcript[self.tr_reader];
        if !g0.add(g1).equals(&s) {
            return None;
        }
        self.ris.push(r);
        self.sum = s;
        self.tr_reader = self.tr_reader + 1;
        proof {
            lemma_three_is_valid::<F>();
        }
        self.running_poly = Some(quadratic_from_evals(g0, g1, g2, None));
        Some(QuadraticEvals::new(g0, g1, g2))
    }

    /// Introduces the basis polynomial `bi` with claimed sum `h`: the next
    /// round values must add up to `h` and become the polynomial to glue.
    /// `None` when the transcript is used up or they do not.
    pub fn introduce_new(&mut self, bi: MultiLinearPoly<F>, h: F) -> (res: Option<QuadraticEvals<F>>)
        ensures
            ({
                let tr = old(self).transcript@;
                let at = old(self).tr_reader as int;
                &&& res is None <==> (at >= tr.len() || F::spec_add(tr[at].0, tr[at].1) != h)
                &&& res is Some ==> {
                    &&& triple(res->0) == tr[at]
                    &&& final(self).basis_polys@ == old(self).basis_polys@.push(bi)
                    &&& final(self).to_glue == Some(
                        spec_quadratic_from_evals(tr[at].0, tr[at].1, tr[at].2, spec_three::<F>()),
                    )
                    &&& final(self).tr_reader == at + 1
                    &&& final(self).separation_challenges == old(self).separation_challenges
                    &&& final(self).sum == old(self).sum
                    &&& final(self).transcript == old(self).transcript
                    &&& final(self).ris == old(self).ris
                    &&& final(self).running_poly == old(self).running_poly
                }
            }),
    {
        if self.tr_reader >= self.transcript.len() {
            return None;
        }
        let (g0, g1, g2) = self.transcript[self.tr_reader];
        if !g0.add(g1).equals(&h) {
            return None;
        }
        self.tr_reader = self.tr_reader + 1;
        self.basis_polys.push(bi);
        proof {
            lemma_three_is_valid::<F>();
        }
        self.to_glue = Some(quadratic_from_evals(g0, g1, g2, None));
        Some(QuadraticEvals::new(g0, g1, g2))
    }

    /// Glues the introduced polynomial into the running one with the
    /// separation challenge `alpha`.
    pub fn glue(&mut self, alpha: F)
        requires
            old(self).running_poly is Some,
            old(self).to_glue is Some,
        ensures
            final(self).separation_challenges@ == old(self).separation_challenges@.push(alpha),
            final(self).running_poly == Some(
                spec_fold_quadratic(old(self).running_poly->0, old(self).to_glue->0, alpha),
            ),
            final(self).to_glue == old(self).to_glue,
            final(self).basis_polys == old(self).basis_polys,
            final(self).sum == old(self).sum,
            final(self).transcript == old(self).transcript,
            final(self).ris == old(self).ris,
            final(self).tr_reader == old(self).tr_reader,
    {
        let running = match &self.running_poly {
            Some(p) => *p,
            None => {
                proof {
                    assert(false);
                }
                return ;
            },
        };
        let glued = match &self.to_glue {
            Some(p) => *p,
            None => {
                proof {
                    assert(false);
                }
                return ;
            },
        };
        self.separation_challenges.push(alpha);
        self.running_poly = Some(fold_quadratic(running, glued, alpha));
    }

    /// Records the last challenge `r` and evaluates the basis polynomials
    /// at the challenges (see `spec_eval_basis_polys`).
    pub fn evaluate_basis_polys(&mut self, r: F) -> (res: F)
        requires
            basis_fits(old(self).basis_polys@, old(self).ris@.len() + 1),
            old(self).separation_challenges@.len() >= old(self).basis_polys@.len(),
        ensures
            final(self).ris@ == old(self).ris@.push(r),
            res == spec_eval_basis_polys(
                old(self).basis_polys@,
                old(self).separation_challenges@,
                old(self).ris@.push(r),
                old(self).basis_polys@.len() as nat,
            ),
            final(self).basis_polys == old(self).basis_polys,
            final(self).separation_challenges == old(self).separation_challenges,
            final(self).sum == old(self).sum,
            final(self).transcript == old(self).transcript,
            final(self).tr_reader == old(self).tr_reader,
            final(self).running_poly == old(self).running_poly,
            final(self).to_glue == old(self).to_glue,
    {
        self.ris.push(r);
        let ghost ps = self.basis_polys@;
        let ghost seps = self.separation_challenges@;
        let ghost ris = self.ris@;
        let first = self.basis_polys[0].partial_eval(self.ris.as_slice());
        let _ = first.num_vars();
        proof {
            lemma_pow2_pos(first.spec_num_vars());
        }
        let mut b_eval = first.evals()[0];
        let mut i: usize = 1;
        while i < self.basis_polys.len()
            invariant
                1 <= i <= ps.len(),
                ps == self.basis_polys@,
                seps == self.separation_challenges@,
                ris == self.ris@,
                seps.len() >= ps.len(),
                basis_fits(ps, ris.len()),
                b_eval == spec_eval_basis_polys(ps, seps, ris, i as nat),
            decreases ps.len() - i,
        {
            let bi = &self.basis_polys[i];
            let n = bi.num_vars();
            proof {
                assert(1 <= ps[i as int].spec_num_vars() <= ris.len());
            }
            let eval_pts = vstd::slice::slice_subrange(self.ris.as_slice(), self.ris.len() - n, self.ris.len());
            let bi_part = bi.partial_eval(eval_pts);
            let _ = bi_part.num_vars();
            proof {
                lemma_pow2_pos(bi_part.spec_num_vars());
            }
            let bi_eval = bi_part.evals()[0];
            b_eval = b_eval.add(self.separation_challenges[i].mul(bi_eval));
            i = i + 1;
        }
        b_eval
    }

    /// The final check: with `f_eval` the value of `f` at all challenges,
    /// `f_eval` times the basis evaluation equals the running polynomial at
    /// the last challenge `r`.
    pub fn verify(&mut self, r: F, f_eval: F) -> (res: bool)
        requires
            old(self).running_poly is Some,
            basis_fits(old(self).basis_polys@, old(self).ris@.len() + 1),
            old(self).separation_challenges@.len() >= old(self).basis_polys@.len(),
        ensures
            res == (F::spec_mul(
                f_eval,
                spec_eval_basis_polys(
                    old(self).basis_polys@,
                    old(self).separation_challenges@,
                    old(self).ris@.push(r),
                    old(self).basis_polys@.len() as nat,
                ),
            ) == spec_eval_quadratic(old(self).running_poly->0, r)),
            final(self).ris@ == old(self).ris@.push(r),
            final(self).sum == spec_eval_quadratic(old(self).running_poly->0, r),
    {
        let running_poly = match &self.running_poly {
            Some(p) => *p,
            None => {
                proof {
                    assert(false);
                }
                return false;
            },
        };
        self.sum = running_poly.eval_quadratic(r);
        let basis_evals = self.evaluate_basis_polys(r);
        f_eval.mul(basis_evals).equals(&self.sum)
    }

    /// Records the last challenge `r` and partially evaluates the basis
    /// polynomials down to `k` variables (see `spec_eval_basis_partial`).
    pub fn evaluate_basis_polys_partially(&mut self, r: F, k: usize) -> (res: Vec<F>)
        requires
            basis_fits_partial(old(self).basis_polys@, old(self).ris@.len() + 1, k as nat),
            old(self).separation_challenges@.len() >= old(self).basis_polys@.len(),
        ensures
            final(self).ris@ == old(self).ris@.push(r),
            res@ == spec_eval_basis_partial(
                old(self).basis_polys@,
                old(self).separation_challenges@,
                old(self).ris@.push(r),
                k as nat,
                old(self).basis_polys@.len() as nat,
            ),
            res@.len() == pow2(k as nat),
            final(self).basis_polys == old(self).basis_polys,
            final(self).separation_challenges == old(self).separation_challenges,
            final(self).sum == old(self).sum,
            final(self).transcript == old(self).transcript,
            final(self).tr_reader == old(self).tr_reader,
            final(self).running_poly == old(self).running_poly,
            final(self).to_glue == old(self).to_glue,
    {
        self.ris.push(r);
        let ghost ps = self.basis_polys@;
        let ghost seps = self.separation_challenges@;
        let ghost ris = self.ris@;
        let partial_eval_res = self.basis_polys[0].partial_eval(self.ris.as_slice());
        let _ = partial_eval_res.num_vars();
        let mut acc = crate::multilinear_poly::copy_vec(partial_eval_res.evals());
        let mut i: usize = 1;
        while i < self.basis_polys.len()
            invariant
                1 <= i <= ps.len(),
                ps == self.basis_polys@,
                seps == self.separation_challenges@,
                ris == self.ris@,
                seps.len() >= ps.len(),
                basis_fits_partial(ps, ris.len(), k as nat),
                acc@ == spec_eval_basis_partial(ps, seps, ris, k as nat, i as nat),
                acc@.len() == pow2(k as nat),
            decreases ps.len() - i,
        {
            let bi = &self.basis_polys[i];
            let n = bi.num_vars();
            proof {
                assert(k < ps[i as int].spec_num_vars() <= ris.len() + k);
            }
            let eval_pts = vstd::slice::slice_subrange(
                self.ris.as_slice(),
                self.ris.len() - (n - k),
                self.ris.len(),
            );
            let bi_res = bi.partial_eval(eval_pts);
            let _ = bi_res.num_vars();
            let bi_evals = bi_res.evals();
            let alpha = self.separation_challenges[i];
            let ghost prev = acc@;
            let mut next: Vec<F> = Vec::with_capacity(acc.len());
            let mut t: usize = 0;
            while t < acc.len()
                invariant
                    t <= acc@.len(),
                    acc@ == prev,
                    prev.len() == bi_evals@.len(),
                    next@.len() == t,
                    forall|q: int| 0 <= q < t ==> #[trigger] next@[q] == F::spec_add(
                        prev[q],
                        F::spec_mul(alpha, bi_evals@[q]),
                    ),
                decreases acc@.len() - t,
            {
                let a = acc[t];
                let b = bi_evals[t];
                next.push(a.add(alpha.mul(b)));
                t = t + 1;
            }
            proof {
                assert(next@ =~= spec_eval_basis_partial(ps, seps, ris, k as nat, (i + 1) as nat));
            }
            acc = next;
            i = i + 1;
        }
        acc
    }

    /// The final check of a partial sumcheck: with `f_partial_eval` the
    /// values of `f` at the challenges (`2^k` of them), their inner product
    /// with the partially evaluated basis equals the running polynomial at
    /// the last challenge `r`. False too when the lengths do not fit the
    /// basis polynomials.
    pub fn verify_partial(&mut self, r: F, f_partial_eval: Vec<F>) -> (res: bool)
        requires
            old(self).running_poly is Some,
            old(self).separation_challenges@.len() >= old(self).basis_polys@.len(),
        ensures
            res == ({
                let len = f_partial_eval@.len();
                let k = log2(len as nat);
                &&& len >= 1
                &&& len == pow2(k)
                &&& basis_fits_partial(old(self).basis_polys@, old(self).ris@.len() + 1, k)
                &&& spec_inner(
                    f_partial_eval@,
                    spec_eval_basis_partial(
                        old(self).basis_polys@,
                        old(self).separation_challenges@,
                        old(self).ris@.push(r),
                        k,
                        old(self).basis_polys@.len() as nat,
                    ),
                ) == spec_eval_quadratic(old(self).running_poly->0, r)
            }),
    {
        if f_partial_eval.len() == 0 {
            return false;
        }
        let k = crate::binary_fft::ilog2(f_partial_eval.len());
        if !self.fits_partial(k) {
            return false;
        }
        let running_poly = match &self.running_poly {
            Some(p) => *p,
            None => {
                proof {
                    assert(false);
                }
                return false;
            },
        };
        self.sum = running_poly.eval_quadratic(r);
        let basis_evals = self.evaluate_basis_polys_partially(r, k);
        if f_partial_eval.len() != basis_evals.len() {
            return false;
        }
        let ip = inner_product(&f_partial_eval, &basis_evals);
        ip.equals(&self.sum)
    }

    /// Whether the challenges, with one more, fit the basis polynomials for
    /// a partial evaluation down to `k` variables.
    fn fits_partial(&self, k: usize) -> (res: bool)
        ensures
            res == basis_fits_partial(self.basis_polys@, self.ris@.len() + 1, k as nat),
    {
        if self.basis_polys.len() == 0 {
            return false;
        }
        let ris_len = self.ris.len();
        let n0 = self.basis_polys[0].num_vars();
        if ris_len >= usize::MAX - k || n0 != ris_len + 1 + k {
            return false;
        }
        let mut i: usize = 1;
        while i < self.basis_polys.len()
            invariant
                1 <= i <= self.basis_polys@.len(),
                ris_len == self.ris@.len(),
                ris_len + 1 + k <= usize::MAX,
                self.basis_polys@[0].spec_num_vars() == ris_len + 1 + k,
                forall|t: int| 1 <= t < i ==> k < #[trigger] self.basis_polys@[t].spec_num_vars() <= ris_len + 1 + k,
            decreases self.basis_polys@.len() - i,
        {
            let n = self.basis_polys[i].num_vars();
            if n <= k || n > ris_len + 1 + k {
                return false;
            }
            i = i + 1;
        }
        true
    }
}

/// A copy of the round values.
pub(crate) fn copy_transcript<F: BinaryField>(tr: &Vec<(F, F, F)>) -> (r: Vec<(F, F, F)>)
    ensures
        r@ == tr@,
{
    let mut out: Vec<(F, F, F)> = Vec::with_capacity(tr.len());
    let mut i: usize = 0;
    while i < tr.len()
        invariant
            i <= tr@.len(),
            out@ == tr@.subrange(0, i as int),
        decreases tr@.len() - i,
    {
        out.push(tr[i]);
        i = i + 1;
    }
    out
}

// ---------------------------------------------------------------------------
// Completeness of the running sumcheck
// ---------------------------------------------------------------------------

/// Partial evaluation at one challenge fixes the first variable.
pub(crate) proof fn lemma_partial_eval_one<F: BinaryField>(s: Seq<F>, r: F)
    ensures
        spec_partial_eval(s, seq![r]) == spec_fold_once(s, r),
{
    assert(seq![r][0] == r);
    assert(seq![r].drop_first() =~= Seq::<F>::empty());
    assert(spec_partial_eval(spec_fold_once(s, r), Seq::<F>::empty()) == spec_fold_once(s, r));
}

/// `sum_seqs` reads only its first `count` sequences.
proof fn lemma_sum_seqs_prefix<F: BinaryField>(ss: Seq<Seq<F>>, s: Seq<F>, count: nat)
    requires
        1 <= count <= ss.len(),
    ensures
        sum_seqs(ss.push(s), count) == sum_seqs(ss, count),
    decreases count,
{
    if count > 1 {
        lemma_sum_seqs_prefix(ss, s, (count - 1) as nat);
    }
}

/// All the sequences have the length of the first.
pub open spec fn same_lens<F>(ss: Seq<Seq<F>>) -> bool {
    forall|i: int| 0 <= i < ss.len() ==> #[trigger] ss[i].len() == ss[0].len()
}

/// The sum of subranges is the subrange of the sum.
proof fn lemma_sum_seqs_subrange<F: BinaryField>(ss: Seq<Seq<F>>, a: int, b: int, count: nat)
    requires
        1 <= count <= ss.len(),
        0 <= a <= b <= ss[0].len(),
        same_lens(ss),
    ensures
        sum_seqs(Seq::new(ss.len(), |i: int| ss[i].subrange(a, b)), count) == sum_seqs(ss, count).subrange(a, b),
    decreases count,
{
    let sub = Seq::new(ss.len(), |i: int| ss[i].subrange(a, b));
    lemma_sum_seqs_len(ss, count);
    if count > 1 {
        lemma_sum_seqs_subrange(ss, a, b, (count - 1) as nat);
        lemma_sum_seqs_len(ss, (count - 1) as nat);
        lemma_sum_seqs_len(sub, (count - 1) as nat);
        assert(sum_seqs(sub, count) =~= sum_seqs(ss, count).subrange(a, b));
    }
}

/// The value at `x` of the line through `u0` and `u1`, in the form the
/// round values use, is additive.
proof fn lemma_evals_at_x_add<F: BinaryField>(p0: F, p1: F, a0: F, a1: F, x: F)
    ensures
        F::spec_add(F::spec_mul(x, F::spec_add(p1, a1)), F::spec_mul(F::spec_add(F::spec_one(), x), F::spec_add(p0, a0)))
            == F::spec_add(
            F::spec_add(F::spec_mul(x, p1), F::spec_mul(F::spec_add(F::spec_one(), x), p0)),
            F::spec_add(F::spec_mul(x, a1), F::spec_mul(F::spec_add(F::spec_one(), x), a0)),
        ),
{
    let y = F::spec_add(F::spec_one(), x);
    F::lemma_mul_distrib(x, p1, a1);
    F::lemma_mul_distrib(y, p0, a0);
    lemma_add_swap_mid(F::spec_mul(x, p1), F::spec_mul(x, a1), F::spec_mul(y, p0), F::spec_mul(y, a0));
}

/// The round values at `x` of a sum are the sum of the round values.
proof fn lemma_sum_seqs_evals_at_x<F: BinaryField>(s0s: Seq<Seq<F>>, s1s: Seq<Seq<F>>, x: F, count: nat)
    requires
        1 <= count <= s0s.len(),
        s0s.len() == s1s.len(),
        same_lens(s0s),
        same_lens(s1s),
        s0s[0].len() == s1s[0].len(),
    ensures
        sum_seqs(Seq::new(s0s.len(), |i: int| spec_evals_at_x(s0s[i], s1s[i], x)), count) == spec_evals_at_x(
            sum_seqs(s0s, count),
            sum_seqs(s1s, count),
            x,
        ),
    decreases count,
{
    let es = Seq::new(s0s.len(), |i: int| spec_evals_at_x(s0s[i], s1s[i], x));
    lemma_sum_seqs_len(s0s, count);
    lemma_sum_seqs_len(s1s, count);
    if count > 1 {
        let k = (count - 1) as nat;
        lemma_sum_seqs_evals_at_x(s0s, s1s, x, k);
        lemma_sum_seqs_len(s0s, k);
        lemma_sum_seqs_len(s1s, k);
        lemma_sum_seqs_len(es, k);
        let p0 = sum_seqs(s0s, k);
        let p1 = sum_seqs(s1s, k);
        let lhs = sum_seqs(es, count);
        let rhs = spec_evals_at_x(sum_seqs(s0s, count), sum_seqs(s1s, count), x);
        assert forall|t: int| 0 <= t < lhs.len() implies lhs[t] == rhs[t] by {
            lemma_evals_at_x_add(p0[t], p1[t], s0s[k as int][t], s1s[k as int][t], x);
        }
        assert(lhs =~= rhs);
    } else {
        assert(es[0].len() == s0s[0].len());
    }
}

/// Fixing the first variable commutes with the sum.
proof fn lemma_sum_seqs_fold<F: BinaryField>(ss: Seq<Seq<F>>, r: F, count: nat)
    requires
        1 <= count <= ss.len(),
        same_lens(ss),
        ss[0].len() % 2 == 0,
    ensures
        sum_seqs(Seq::new(ss.len(), |i: int| spec_fold_once(ss[i], r)), count) == spec_fold_once(
            sum_seqs(ss, count),
            r,
        ),
    decreases count,
{
    let fs = Seq::new(ss.len(), |i: int| spec_fold_once(ss[i], r));
    lemma_sum_seqs_len(ss, count);
    if count > 1 {
        let k = (count - 1) as nat;
        lemma_sum_seqs_fold(ss, r, k);
        lemma_sum_seqs_len(ss, k);
        lemma_sum_seqs_len(fs, k);
        let p = sum_seqs(ss, k);
        let a = ss[k as int];
        let h = (p.len() / 2) as int;
        let y = F::spec_add(F::spec_one(), r);
        let lhs = sum_seqs(fs, count);
        let rhs = spec_fold_once(sum_seqs(ss, count), r);
        assert forall|t: int| 0 <= t < lhs.len() implies lhs[t] == rhs[t] by {
            F::lemma_mul_distrib(y, p[t], a[t]);
            F::lemma_mul_distrib(r, p[t + h], a[t + h]);
            lemma_add_swap_mid(F::spec_mul(y, p[t]), F::spec_mul(y, a[t]), F::spec_mul(r, p[t + h]), F::spec_mul(r, a[t + h]));
        }
        assert(lhs =~= rhs);
    }
}

/// The prover's round values against several basis polynomials are the
/// product round values against their sum.
pub proof fn lemma_eval_01x_is_product<F: BinaryField>(f: Seq<F>, bs: Seq<Seq<F>>)
    requires
        f.len() >= 2,
        f.len() % 2 == 0,
        bs.len() >= 1,
        forall|i: int| 0 <= i < bs.len() ==> #[trigger] bs[i].len() == f.len(),
    ensures
        spec_eval_01x(f, bs, spec_three::<F>()) == spec_eval_013_product(f, sum_seqs(bs, bs.len())),
{
    let l = f.len() as int;
    let h = l / 2;
    let n = bs.len();
    let x = spec_three::<F>();
    let one = F::spec_one();
    let s = sum_seqs(bs, n);
    lemma_sum_seqs_len(bs, n);
    let h0s = Seq::new(n, |i: int| half0(bs[i]));
    let h1s = Seq::new(n, |i: int| half1(bs[i]));
    assert(h0s =~= Seq::new(n, |i: int| bs[i].subrange(0, h)));
    assert(h1s =~= Seq::new(n, |i: int| bs[i].subrange(h, l)));
    lemma_sum_seqs_subrange(bs, 0, h, n);
    lemma_sum_seqs_subrange(bs, h, l, n);
    let s0 = s.subrange(0, h);
    let s1 = s.subrange(h, l);
    let h2s = Seq::new(n, |i: int| spec_evals_at_x(half0(bs[i]), half1(bs[i]), x));
    assert(h2s =~= Seq::new(n, |i: int| spec_evals_at_x(h0s[i], h1s[i], x)));
    lemma_sum_seqs_evals_at_x(h0s, h1s, x, n);
    let f0 = half0(f);
    let f1 = half1(f);
    assert forall|t: int| 0 <= t < h implies spec_evals_at_x(f0, f1, x)[t] == spec_evals_at_three(f0, f1)[t]
        && spec_evals_at_x(s0, s1, x)[t] == spec_evals_at_three(s0, s1)[t] by {
        F::lemma_mul_comm(x, f1[t]);
        F::lemma_mul_comm(x, s1[t]);
    }
    assert(spec_evals_at_x(f0, f1, x) =~= spec_evals_at_three(f0, f1));
    assert(spec_evals_at_x(s0, s1, x) =~= spec_evals_at_three(s0, s1));
}

/// The round values that both sides start from: against the single first
/// basis polynomial `b1` they are the product round values, and the values
/// at 0 and 1 add up to the claimed sum `sum f[i] b1[i]`.
pub proof fn lemma_running_start<F: BinaryField>(f: Seq<F>, b1: Seq<F>)
    requires
        f.len() >= 2,
        f.len() % 2 == 0,
        b1.len() == f.len(),
    ensures
        spec_eval_01x(f, seq![b1], spec_three::<F>()) == spec_eval_013_product(f, b1),
        F::spec_add(spec_eval_013_product(f, b1).0, spec_eval_013_product(f, b1).1) == spec_inner(f, b1),
{
    lemma_eval_01x_is_product(f, seq![b1]);
    lemma_double_round(f, b1, F::spec_zero());
}

/// Fixing a variable: when both sides fix the first variable to `r` (the
/// prover in `f` and in every basis polynomial), the prover's next round
/// values add up to the verifier's running polynomial (the quadratic through
/// the previous round values) at `r`, so the verifier's `fold` accepts them.
pub proof fn lemma_running_fold<F: BinaryField>(f: Seq<F>, bs: Seq<Seq<F>>, n: nat, r: F)
    requires
        f.len() == pow2(n),
        n >= 2,
        bs.len() >= 1,
        forall|i: int| 0 <= i < bs.len() ==> #[trigger] bs[i].len() == f.len(),
    ensures
        ({
            let e = spec_eval_01x(f, bs, spec_three::<F>());
            let e2 = spec_eval_01x(
                spec_partial_eval(f, seq![r]),
                Seq::new(bs.len(), |i: int| spec_partial_eval(bs[i], seq![r])),
                spec_three::<F>(),
            );
            F::spec_add(e2.0, e2.1) == spec_eval_quadratic(
                spec_quadratic_from_evals(e.0, e.1, e.2, spec_three::<F>()),
                r,
            )
        }),
{
    lemma_pow2_unfold(n);
    lemma_pow2_unfold((n - 1) as nat);
    lemma_pow2_pos((n - 2) as nat);
    let m = bs.len();
    let s = sum_seqs(bs, m);
    lemma_eval_01x_is_product(f, bs);
    lemma_sum_seqs_len(bs, m);
    lemma_double_round(f, s, r);
    lemma_partial_eval_one(f, r);
    let f2 = spec_partial_eval(f, seq![r]);
    let bs2 = Seq::new(m, |i: int| spec_partial_eval(bs[i], seq![r]));
    assert forall|i: int| 0 <= i < m implies bs2[i] == spec_fold_once(bs[i], r) by {
        lemma_partial_eval_one(bs[i], r);
    }
    assert(bs2 =~= Seq::new(m, |i: int| spec_fold_once(bs[i], r)));
    lemma_sum_seqs_fold(bs, r, m);
    lemma_eval_01x_is_product(f2, bs2);
    lemma_sum_seqs_len(bs2, m);
    lemma_double_round(f2, sum_seqs(bs2, m), r);
}

/// Introducing and gluing a basis polynomial `bi` with separation challenge
/// `alpha`: its round values add up to its claimed sum `sum f[i] bi[i]`, and
/// the verifier's glued running polynomial is the quadratic through the
/// prover's round values against the glued basis.
pub proof fn lemma_running_glue<F: BinaryField>(f: Seq<F>, bs: Seq<Seq<F>>, bi: Seq<F>, alpha: F)
    requires
        f.len() >= 2,
        f.len() % 2 == 0,
        bs.len() >= 1,
        forall|i: int| 0 <= i < bs.len() ==> #[trigger] bs[i].len() == f.len(),
        bi.len() == f.len(),
    ensures
        F::spec_add(spec_eval_013_product(f, bi).0, spec_eval_013_product(f, bi).1) == spec_inner(f, bi),
        ({
            let e = spec_eval_01x(f, bs, spec_three::<F>());
            let g = spec_eval_013_product(f, bi);
            let e2 = spec_eval_01x(f, bs.push(spec_scaled(bi, alpha)), spec_three::<F>());
            spec_fold_quadratic(
                spec_quadratic_from_evals(e.0, e.1, e.2, spec_three::<F>()),
                spec_quadratic_from_evals(g.0, g.1, g.2, spec_three::<F>()),
                alpha,
            ) == spec_quadratic_from_evals(e2.0, e2.1, e2.2, spec_three::<F>())
        }),
{
    let m = bs.len();
    let h = (f.len() / 2) as int;
    let s = sum_seqs(bs, m);
    let sc = spec_scaled(bi, alpha);
    let bs2 = bs.push(sc);
    lemma_sum_seqs_len(bs, m);
    lemma_eval_01x_is_product(f, bs);
    lemma_double_round(f, s, alpha);
    lemma_double_round(f, bi, alpha);
    assert forall|i: int| 0 <= i < bs2.len() implies #[trigger] bs2[i].len() == f.len() by {
        if i < m {
            assert(bs2[i] == bs[i]);
        }
    }
    lemma_eval_01x_is_product(f, bs2);
    lemma_sum_seqs_prefix(bs, sc, m);
    let s2 = sum_seqs(bs2, m + 1);
    assert(s2 =~= Seq::new(s.len(), |i: int| F::spec_add(s[i], F::spec_mul(bi[i], alpha))));
    lemma_sum_seqs_len(bs2, m + 1);
    lemma_double_round(f, s2, alpha);
    lemma_round_quadratic_lin(f, s, bi, alpha, h, h as nat);
}

/// The last round: with one variable left, the running polynomial at the
/// last challenge `r` is the value of `f` at `r` times the sum of the basis
/// polynomials' values at `r`.
pub proof fn lemma_running_final<F: BinaryField>(f: Seq<F>, bs: Seq<Seq<F>>, r: F)
    requires
        f.len() == 2,
        bs.len() >= 1,
        forall|i: int| 0 <= i < bs.len() ==> #[trigger] bs[i].len() == 2,
    ensures
        ({
            let e = spec_eval_01x(f, bs, spec_three::<F>());
            spec_eval_quadratic(spec_quadratic_from_evals(e.0, e.1, e.2, spec_three::<F>()), r) == F::spec_mul(
                spec_partial_eval(f, seq![r])[0],
                sum_seqs(Seq::new(bs.len(), |i: int| spec_partial_eval(bs[i], seq![r])), bs.len())[0],
            )
        }),
{
    let m = bs.len();
    let s = sum_seqs(bs, m);
    lemma_sum_seqs_len(bs, m);
    lemma_eval_01x_is_product(f, bs);
    lemma_double_round(f, s, r);
    lemma_partial_eval_one(f, r);
    let bs2 = Seq::new(m, |i: int| spec_partial_eval(bs[i], seq![r]));
    assert forall|i: int| 0 <= i < m implies bs2[i] == spec_fold_once(bs[i], r) by {
        lemma_partial_eval_one(bs[i], r);
    }
    assert(bs2 =~= Seq::new(m, |i: int| spec_fold_once(bs[i], r)));
    lemma_sum_seqs_fold(bs, r, m);
    let fc = spec_fold_once(f, r);
    let fd = spec_fold_once(s, r);
    assert(s.len() == 2);
    assert(fc.len() == 1);
    assert(fd.len() == 1);
    let p = Seq::new(1, |i: int| F::spec_mul(fc[i], fd[i]));
    assert(p.drop_last() =~= Seq::<F>::empty());
    assert(spec_sum(Seq::<F>::empty()) == F::spec_zero());
    F::lemma_add_zero(F::spec_mul(fc[0], fd[0]));
    assert(spec_sum(p) == F::spec_mul(fc[0], fd[0]));
    assert(spec_inner(fc, fd) == spec_sum(p));
    assert(sum_seqs(bs2, m) == fd);
}

/// The final partial check: when the prover stops folding with `n >= 1`
/// variables left, the verifier's running polynomial at the last challenge
/// `r` is the inner product of `f` with its first variable fixed to `r` and
/// the sum of the basis polynomials with theirs fixed to `r`.
pub proof fn lemma_running_final_partial<F: BinaryField>(f: Seq<F>, bs: Seq<Seq<F>>, n: nat, r: F)
    requires
        f.len() == pow2(n),
        n >= 1,
        bs.len() >= 1,
        forall|i: int| 0 <= i < bs.len() ==> #[trigger] bs[i].len() == f.len(),
    ensures
        ({
            let e = spec_eval_01x(f, bs, spec_three::<F>());
            spec_eval_quadratic(spec_quadratic_from_evals(e.0, e.1, e.2, spec_three::<F>()), r) == spec_inner(
                spec_partial_eval(f, seq![r]),
                sum_seqs(Seq::new(bs.len(), |i: int| spec_partial_eval(bs[i], seq![r])), bs.len()),
            )
        }),
{
    let m = bs.len();
    let f2 = spec_partial_eval(f, seq![r]);
    let bs2 = Seq::new(m, |i: int| spec_partial_eval(bs[i], seq![r]));
    crate::multilinear_poly::lemma_partial_eval_len(f, seq![r], n);
    assert forall|i: int| 0 <= i < m implies #[trigger] bs2[i].len() == f2.len() by {
        crate::multilinear_poly::lemma_partial_eval_len(bs[i], seq![r], n);
    }
    lemma_sum_seqs_len(bs2, m);
    let s2 = sum_seqs(bs2, m);
    if n == 1 {
        lemma2_to64();
        lemma_running_final(f, bs, r);
        assert(f2.len() == 1);
        let p = Seq::new(1, |i: int| F::spec_mul(f2[i], s2[i]));
        assert(p.drop_last() =~= Seq::<F>::empty());
        assert(spec_sum(Seq::<F>::empty()) == F::spec_zero());
        F::lemma_add_zero(F::spec_mul(f2[0], s2[0]));
        assert(spec_sum(p) == F::spec_mul(f2[0], s2[0]));
        assert(spec_inner(f2, s2) == spec_sum(p));
    } else {
        lemma_running_fold(f, bs, n, r);
        lemma_pow2_unfold((n - 1) as nat);
        lemma_pow2_pos((n - 2) as nat);
        lemma_eval_01x_is_product(f2, bs2);
        lemma_running_start(f2, s2);
    }
}

/// Fixing the first variable commutes with scaling.
proof fn lemma_fold_scaled<F: BinaryField>(b: Seq<F>, r: F, alpha: F)
    ensures
        spec_fold_once(spec_scaled(b, alpha), r) == spec_scaled(spec_fold_once(b, r), alpha),
{
    let h = (b.len() / 2) as int;
    let y = F::spec_add(F::spec_one(), r);
    let lhs = spec_fold_once(spec_scaled(b, alpha), r);
    let rhs = spec_scaled(spec_fold_once(b, r), alpha);
    assert forall|k: int| 0 <= k < lhs.len() implies lhs[k] == rhs[k] by {
        F::lemma_mul_assoc(y, b[k], alpha);
        F::lemma_mul_assoc(r, b[k + h], alpha);
        F::lemma_mul_comm(F::spec_add(F::spec_mul(y, b[k]), F::spec_mul(r, b[k + h])), alpha);
        F::lemma_mul_distrib(alpha, F::spec_mul(y, b[k]), F::spec_mul(r, b[k + h]));
        F::lemma_mul_comm(F::spec_mul(y, b[k]), alpha);
        F::lemma_mul_comm(F::spec_mul(r, b[k + h]), alpha);
    }
    assert(lhs =~= rhs);
}

/// Partial evaluation commutes with scaling: a glued basis polynomial,
/// folded by the later challenges, is the scaled partial evaluation of the
/// introduced one.
pub proof fn lemma_partial_eval_scaled<F: BinaryField>(b: Seq<F>, rs: Seq<F>, alpha: F)
    ensures
        spec_partial_eval(spec_scaled(b, alpha), rs) == spec_scaled(spec_partial_eval(b, rs), alpha),
    decreases rs.len(),
{
    if rs.len() > 0 {
        lemma_fold_scaled(b, rs[0], alpha);
        lemma_partial_eval_scaled(spec_fold_once(b, rs[0]), rs.drop_first(), alpha);
    }
}

/// The verifier's evaluation of the basis polynomials at the challenges is
/// the sum of the values of the prover's fully folded basis polynomials, when
/// the first is the first basis polynomial at all the challenges and each
/// later one is the introduced polynomial at the last challenges, scaled by
/// its separation challenge.
pub proof fn lemma_basis_evaluation<F: BinaryField>(
    ps: Seq<MultiLinearPoly<F>>,
    seps: Seq<F>,
    ris: Seq<F>,
    folded: Seq<Seq<F>>,
    count: nat,
)
    requires
        1 <= count <= ps.len(),
        folded.len() == ps.len(),
        seps.len() >= ps.len(),
        folded[0] == spec_partial_eval(ps[0]@, ris),
        forall|i: int|
            1 <= i < ps.len() ==> #[trigger] folded[i] == spec_scaled(
                spec_partial_eval(ps[i]@, ris.subrange(ris.len() - ps[i].spec_num_vars(), ris.len() as int)),
                seps[i],
            ),
        forall|i: int| 0 <= i < ps.len() ==> #[trigger] folded[i].len() == 1,
    ensures
        sum_seqs(folded, count)[0] == spec_eval_basis_polys(ps, seps, ris, count),
    decreases count,
{
    if count > 1 {
        let k = (count - 1) as nat;
        lemma_basis_evaluation(ps, seps, ris, folded, k);
        lemma_sum_seqs_len(folded, k);
        let n = ps[k as int].spec_num_vars();
        let v = spec_partial_eval(ps[k as int]@, ris.subrange(ris.len() - n, ris.len() as int));
        F::lemma_mul_comm(v[0], seps[k as int]);
        assert(folded[k as int] == spec_scaled(v, seps[k as int]));
        assert(v.len() == 1);
        assert(folded[k as int][0] == F::spec_mul(v[0], seps[k as int]));
        assert(sum_seqs(folded, count)[0] == F::spec_add(sum_seqs(folded, k)[0], folded[k as int][0]));
    }
}

} // verus!
