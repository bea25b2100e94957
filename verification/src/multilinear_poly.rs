//! Multilinear polynomials stored by their evaluations on the boolean
//! hypercube.
use crate::binary_fft::{ilog2, is_pow2, lemma_is_pow2_log2, lemma_log2_fits, log2};
use crate::binary_field::BinaryField;
use vstd::arithmetic::power2::*;
use vstd::prelude::*;

verus! {

/// The left-to-right sum `((0 + s[0]) + s[1]) + ...`.
pub open spec fn spec_sum<F: BinaryField>(s: Seq<F>) -> F
    decreases s.len(),
{
    if s.len() == 0 {
        F::spec_zero()
    } else {
        F::spec_add(spec_sum(s.drop_last()), s.last())
    }
}

/// The sum of a concatenation is the sum of the sums of its parts.
pub proof fn lemma_sum_concat<F: BinaryField>(a: Seq<F>, b: Seq<F>)
    ensures
        spec_sum(a + b) == F::spec_add(spec_sum(a), spec_sum(b)),
    decreases b.len(),
{
    if b.len() == 0 {
        assert(a + b =~= a);
        F::lemma_add_zero(spec_sum(a));
    } else {
        assert((a + b).drop_last() =~= a + b.drop_last());
        assert((a + b).last() == b.last());
        lemma_sum_concat(a, b.drop_last());
        F::lemma_add_assoc(spec_sum(a), spec_sum(b.drop_last()), b.last());
    }
}

/// The left-to-right sum of the products `a[i] b[i]` for `i < min(|a|, |b|)`.
pub open spec fn spec_inner<F: BinaryField>(a: Seq<F>, b: Seq<F>) -> F {
    spec_sum(
        Seq::new(
            if a.len() <= b.len() {
                a.len()
            } else {
                b.len()
            },
            |i: int| F::spec_mul(a[i], b[i]),
        ),
    )
}

/// Fixing the first variable to `r`: entry `i` becomes
/// `(1 + r) s[i] + r s[i + n/2]`.
pub open spec fn spec_fold_once<F: BinaryField>(s: Seq<F>, r: F) -> Seq<F> {
    let h = s.len() / 2;
    Seq::new(
        h,
        |i: int|
            F::spec_add(
                F::spec_mul(F::spec_add(F::spec_one(), r), s[i]),
                F::spec_mul(r, s[i + h]),
            ),
    )
}

/// Fixing the first `rs.len()` variables to `rs`, first variable first.
pub open spec fn spec_partial_eval<F: BinaryField>(s: Seq<F>, rs: Seq<F>) -> Seq<F>
    decreases rs.len(),
{
    if rs.len() == 0 {
        s
    } else {
        spec_partial_eval(spec_fold_once(s, rs[0]), rs.drop_first())
    }
}

pub proof fn lemma_partial_eval_len<F: BinaryField>(s: Seq<F>, rs: Seq<F>, k: nat)
    requires
        s.len() == pow2(k),
        rs.len() <= k,
    ensures
        spec_partial_eval(s, rs).len() == pow2((k - rs.len()) as nat),
    decreases rs.len(),
{
    if rs.len() > 0 {
        lemma_pow2_unfold(k);
        lemma_partial_eval_len(spec_fold_once(s, rs[0]), rs.drop_first(), (k - 1) as nat);
    }
}

/// Partial evaluation on `rs + [r]` is partial evaluation on `rs` followed by
/// fixing one more variable.
pub proof fn lemma_partial_eval_snoc<F: BinaryField>(s: Seq<F>, rs: Seq<F>, r: F)
    ensures
        spec_partial_eval(s, rs.push(r)) == spec_fold_once(spec_partial_eval(s, rs), r),
    decreases rs.len(),
{
    assert(rs.push(r)[0] == if rs.len() == 0 { r } else { rs[0] });
    if rs.len() == 0 {
        assert(rs.push(r).drop_first() =~= Seq::<F>::empty());
        let t = spec_fold_once(s, r);
        assert(spec_partial_eval(t, Seq::<F>::empty()) == t);
        assert(spec_partial_eval(s, rs) == s);
    } else {
        assert(rs.push(r).drop_first() =~= rs.drop_first().push(r));
        lemma_partial_eval_snoc(spec_fold_once(s, rs[0]), rs.drop_first(), r);
    }
}

/// A multilinear polynomial in `n` variables given by its `2^n` evaluations.
#[derive(Debug)]
pub struct MultiLinearPoly<F: BinaryField> {
    evals: Vec<F>,
    n: usize,
}

impl<F: BinaryField> View for MultiLinearPoly<F> {
    type V = Seq<F>;

    closed spec fn view(&self) -> Seq<F> {
        self.evals@
    }
}

impl<F: BinaryField> MultiLinearPoly<F> {
    #[verifier::type_invariant]
    closed spec fn inv(self) -> bool {
        &&& self.n < 64
        &&& self.evals@.len() == pow2(self.n as nat)
    }

    /// Number of variables.
    pub closed spec fn spec_num_vars(self) -> nat {
        self.n as nat
    }

    /// The polynomial with the given evaluations (a power-of-two number).
    pub fn new(evals: Vec<F>) -> (r: Self)
        requires
            is_pow2(evals@.len()),
        ensures
            r@ == evals@,
            r.spec_num_vars() == log2(evals@.len()),
            r@.len() == pow2(r.spec_num_vars()),
    {
        proof {
            assert(evals@.len() == evals.len());
            lemma_is_pow2_log2(evals@.len());
            lemma_log2_fits(evals@.len());
        }
        let n = ilog2(evals.len());
        MultiLinearPoly { evals, n }
    }

    /// The evaluations have the length `2^num_vars`.
    pub fn num_vars(&self) -> (r: usize)
        ensures
            r == self.spec_num_vars(),
            self@.len() == pow2(r as nat),
            r < 64,
    {
        proof {
            use_type_invariant(self);
        }
        self.n
    }

    pub fn evals(&self) -> (r: &Vec<F>)
        ensures
            r@ == self@,
    {
        &self.evals
    }

    /// A copy with the same evaluations (what `clone` does).
    pub fn duplicate(&self) -> (r: Self)
        ensures
            r@ == self@,
            r.spec_num_vars() == self.spec_num_vars(),
    {
        proof {
            use_type_invariant(self);
        }
        let evals = copy_vec(&self.evals);
        MultiLinearPoly { evals, n: self.n }
    }

    /// The sum of all evaluations.
    pub fn sum(&self) -> (r: F)
        ensures
            r == spec_sum(self@),
    {
        assert(self.evals@.subrange(0, self.evals.len() as int) =~= self.evals@);
        sum_slice(&self.evals, 0, self.evals.len())
    }

    /// Multiplies every evaluation by `alpha`.
    pub fn scale_evals(&mut self, alpha: F)
        ensures
            final(self)@ == Seq::new(old(self)@.len(), |i: int| F::spec_mul(old(self)@[i], alpha)),
            final(self).spec_num_vars() == old(self).spec_num_vars(),
    {
        proof {
            use_type_invariant(&*self);
        }
        let ghost old_evals = self.evals@;
        let mut scaled: Vec<F> = Vec::with_capacity(self.evals.len());
        let mut i: usize = 0;
        while i < self.evals.len()
            invariant
                i <= self.evals.len(),
                self.evals@ == old_evals,
                scaled@.len() == i,
                forall|q: int| 0 <= q < i ==> #[trigger] scaled@[q] == F::spec_mul(old_evals[q], alpha),
            decreases self.evals.len() - i,
        {
            let x = self.evals[i];
            scaled.push(x.mul(alpha));
            i = i + 1;
        }
        assert(scaled@ =~= Seq::new(old_evals.len(), |i: int| F::spec_mul(old_evals[i], alpha)));
        self.evals = scaled;
    }

    /// The first variable fixed to 0: the first half of the evaluations.
    pub fn partial_eval_at_0(&self) -> (r: Self)
        requires
            self.spec_num_vars() >= 1,
        ensures
            r@ == self@.subrange(0, (self@.len() / 2) as int),
            r.spec_num_vars() == self.spec_num_vars() - 1,
    {
        proof {
            use_type_invariant(self);
            lemma_pow2_unfold(self.n as nat);
        }
        let half = self.evals.len() / 2;
        let evals = copy_range(&self.evals, 0, half);
        MultiLinearPoly { evals, n: self.n - 1 }
    }

    /// The first variable fixed to 1: the second half of the evaluations.
    pub fn partial_eval_at_1(&self) -> (r: Self)
        requires
            self.spec_num_vars() >= 1,
        ensures
            r@ == self@.subrange((self@.len() / 2) as int, self@.len() as int),
            r.spec_num_vars() == self.spec_num_vars() - 1,
    {
        proof {
            use_type_invariant(self);
            lemma_pow2_unfold(self.n as nat);
        }
        let half = self.evals.len() / 2;
        let evals = copy_range(&self.evals, half, self.evals.len());
        MultiLinearPoly { evals, n: self.n - 1 }
    }

    /// The sums of the evaluations with the first variable at 0 and at 1.
    pub fn eval_012(&self) -> (r: (F, F))
        requires
            self.spec_num_vars() >= 1,
        ensures
            r.0 == spec_sum(self@.subrange(0, (self@.len() / 2) as int)),
            r.1 == spec_sum(self@.subrange((self@.len() / 2) as int, self@.len() as int)),
    {
        let f0 = self.partial_eval_at_0();
        let f1 = self.partial_eval_at_1();
        (f0.sum(), f1.sum())
    }

    /// Fixes the first `rs.len()` variables to `rs` (at least one, at most all).
    pub fn partial_eval(&self, rs: &[F]) -> (r: Self)
        requires
            1 <= rs@.len() <= self.spec_num_vars(),
        ensures
            r@ == spec_partial_eval(self@, rs@),
            r.spec_num_vars() == self.spec_num_vars() - rs@.len(),
    {
        proof {
            use_type_invariant(self);
            lemma_pow2_unfold(self.n as nat);
        }
        let mut n = self.evals.len() / 2;
        let mut partial_evals: Vec<F> = Vec::with_capacity(n);
        let one = F::one();
        let r0 = rs[0];
        let ghost first = spec_fold_once(self.evals@, r0);
        let mut i: usize = 0;
        while i < n
            invariant
                i <= n,
                n == self.evals@.len() / 2,
                2 * n == self.evals.len(),
                one == F::spec_one(),
                first == spec_fold_once(self.evals@, r0),
                partial_evals@.len() == i,
                forall|q: int| 0 <= q < i ==> #[trigger] partial_evals@[q] == first[q],
            decreases n - i,
        {
            let a = self.evals[i];
            let b = self.evals[i + n];
            partial_evals.push(one.add(r0).mul(a).add(r0.mul(b)));
            i = i + 1;
        }
        assert(partial_evals@ =~= first);
        proof {
            let r1 = rs@.subrange(0, 1);
            assert(r1[0] == r0);
            assert(r1.drop_first() =~= Seq::<F>::empty());
            assert(partial_evals@.subrange(0, n as int) =~= partial_evals@);
            assert(spec_partial_eval(self.evals@, r1) == spec_partial_eval(first, r1.drop_first()));
        }
        let mut k: usize = 1;
        while k < rs.len()
            invariant
                1 <= k <= rs@.len(),
                rs@.len() <= self.n,
                self.n < 64,
                one == F::spec_one(),
                n == pow2((self.n - k) as nat),
                partial_evals@.len() >= n,
                partial_evals@.subrange(0, n as int) == spec_partial_eval(self.evals@, rs@.subrange(0, k as int)),
            decreases rs@.len() - k,
        {
            proof {
                lemma_pow2_unfold((self.n - k) as nat);
            }
            let ghost cur = partial_evals@.subrange(0, n as int);
            n = n / 2;
            let rk = rs[k];
            let ghost target = spec_fold_once(cur, rk);
            let mut j: usize = 0;
            while j < n
                invariant
                    j <= n,
                    2 * n <= partial_evals.len(),
                    one == F::spec_one(),
                    cur.len() == 2 * n,
                    target == spec_fold_once(cur, rk),
                    forall|q: int| 0 <= q < j ==> #[trigger] partial_evals@[q] == target[q],
                    forall|q: int| j <= q < 2 * n ==> #[trigger] partial_evals@[q] == cur[q],
                decreases n - j,
            {
                let l = partial_evals[j];
                let r = partial_evals[j + n];
                partial_evals.set(j, one.add(rk).mul(l).add(rk.mul(r)));
                j = j + 1;
            }
            proof {
                assert(partial_evals@.subrange(0, n as int) =~= target);
                lemma_partial_eval_snoc(self.evals@, rs@.subrange(0, k as int), rk);
                assert(rs@.subrange(0, k as int).push(rk) =~= rs@.subrange(0, k + 1));
            }
            k = k + 1;
        }
        assert(rs@.subrange(0, rs@.len() as int) =~= rs@);
        let evals = copy_range(&partial_evals, 0, n);
        proof {
            lemma_partial_eval_len(self.evals@, rs@, self.n as nat);
            lemma_pow2_le_fits((self.n - rs@.len()) as nat, self.n as nat);
        }
        MultiLinearPoly { evals, n: self.n - rs.len() }
    }
}

proof fn lemma_pow2_le_fits(a: nat, b: nat)
    requires
        a <= b,
    ensures
        pow2(a) <= pow2(b),
{
    if a < b {
        lemma_pow2_strictly_increases(a, b);
    }
}

/// The left-to-right sum of `v[start .. end]`.
pub fn sum_slice<F: BinaryField>(v: &Vec<F>, start: usize, end: usize) -> (r: F)
    requires
        start <= end <= v.len(),
    ensures
        r == spec_sum(v@.subrange(start as int, end as int)),
{
    let mut acc = F::zero();
    let mut i = start;
    while i < end
        invariant
            start <= i <= end <= v.len(),
            acc == spec_sum(v@.subrange(start as int, i as int)),
        decreases end - i,
    {
        proof {
            assert(v@.subrange(start as int, i + 1).drop_last() =~= v@.subrange(start as int, i as int));
        }
        acc = acc.add(v[i]);
        i = i + 1;
    }
    acc
}

/// The left-to-right sum of `a[i] b[i]` over the shorter length.
pub fn inner_product<F: BinaryField>(a: &Vec<F>, b: &Vec<F>) -> (r: F)
    ensures
        r == spec_inner(a@, b@),
{
    let len = if a.len() <= b.len() {
        a.len()
    } else {
        b.len()
    };
    let ghost prods = Seq::new(len as nat, |i: int| F::spec_mul(a@[i], b@[i]));
    let mut acc = F::zero();
    let mut i: usize = 0;
    while i < len
        invariant
            i <= len,
            len <= a.len(),
            len <= b.len(),
            prods == Seq::new(len as nat, |i: int| F::spec_mul(a@[i], b@[i])),
            acc == spec_sum(prods.subrange(0, i as int)),
        decreases len - i,
    {
        proof {
            assert(prods.subrange(0, i + 1).drop_last() =~= prods.subrange(0, i as int));
        }
        acc = acc.add(a[i].mul(b[i]));
        i = i + 1;
    }
    assert(prods.subrange(0, len as int) =~= prods);
    acc
}

/// A copy of `v`.
pub fn copy_vec<F: BinaryField>(v: &Vec<F>) -> (r: Vec<F>)
    ensures
        r@ == v@,
{
    copy_range(v, 0, v.len())
}

/// A copy of `v[start .. end]`.
pub fn copy_range<F: BinaryField>(v: &Vec<F>, start: usize, end: usize) -> (r: Vec<F>)
    requires
        start <= end <= v.len(),
    ensures
        r@ == v@.subrange(start as int, end as int),
{
    let mut out: Vec<F> = Vec::with_capacity(end - start);
    let mut i = start;
    while i < end
        invariant
            start <= i <= end <= v.len(),
            out@ == v@.subrange(start as int, i as int),
        decreases end - i,
    {
        out.push(v[i]);
        i = i + 1;
    }
    out
}

/// The third round value of a product sumcheck: with `3` the third point,
/// the entry `3 s1[i] + (1 + 3) s0[i]`.
pub open spec fn spec_evals_at_three<F: BinaryField>(s0: Seq<F>, s1: Seq<F>) -> Seq<F> {
    let three = F::spec_from_nat(3);
    Seq::new(
        s0.len(),
        |i: int|
            F::spec_add(
                F::spec_mul(s1[i], three),
                F::spec_mul(F::spec_add(F::spec_one(), three), s0[i]),
            ),
    )
}

/// The round values of the product `f g` summed over the other variables,
/// with the first variable at 0, 1 and 3.
pub open spec fn spec_eval_013_product<F: BinaryField>(f: Seq<F>, g: Seq<F>) -> (F, F, F) {
    let h = f.len() / 2;
    let f0 = f.subrange(0, h as int);
    let f1 = f.subrange(h as int, f.len() as int);
    let g0 = g.subrange(0, h as int);
    let g1 = g.subrange(h as int, g.len() as int);
    (
        spec_inner(f0, g0),
        spec_inner(f1, g1),
        spec_inner(spec_evals_at_three(f0, f1), spec_evals_at_three(g0, g1)),
    )
}

/// The sums of `f g` with the first variable at 0, at 1 and at 3.
pub fn eval_013_product<F: BinaryField>(f: &MultiLinearPoly<F>, g: &MultiLinearPoly<F>) -> (r: (F, F, F))
    requires
        f.spec_num_vars() == g.spec_num_vars(),
        f.spec_num_vars() >= 1,
    ensures
        r == spec_eval_013_product(f@, g@),
{
    let nf = f.num_vars();
    let ng = g.num_vars();
    proof {
        F::lemma_order();
        lemma_pow2_unfold(nf as nat);
    }
    let f0 = f.partial_eval_at_0();
    let g0 = g.partial_eval_at_0();
    let s0 = inner_product(f0.evals(), g0.evals());
    let f1 = f.partial_eval_at_1();
    let g1 = g.partial_eval_at_1();
    let s1 = inner_product(f1.evals(), g1.evals());
    let field_three = F::from_usize(3);
    let f2 = evals_at_three(f0.evals(), f1.evals(), field_three);
    let g2 = evals_at_three(g0.evals(), g1.evals(), field_three);
    let s2 = inner_product(&f2, &g2);
    (s0, s1, s2)
}

fn evals_at_three<F: BinaryField>(s0: &Vec<F>, s1: &Vec<F>, three: F) -> (r: Vec<F>)
    requires
        s0.len() == s1.len(),
        three == F::spec_from_nat(3),
    ensures
        r@ == spec_evals_at_three(s0@, s1@),
{
    let one = F::one();
    let mut out: Vec<F> = Vec::with_capacity(s0.len());
    let mut i: usize = 0;
    while i < s0.len()
        invariant
            i <= s0.len(),
            s0.len() == s1.len(),
            one == F::spec_one(),
            three == F::spec_from_nat(3),
            out@.len() == i,
            forall|q: int| 0 <= q < i ==> #[trigger] out@[q] == spec_evals_at_three(s0@, s1@)[q],
        decreases s0.len() - i,
    {
        let v0 = s0[i];
        let v1 = s1[i];
        out.push(v1.mul(three).add(one.add(three).mul(v0)));
        i = i + 1;
    }
    assert(out@ =~= spec_evals_at_three(s0@, s1@));
    out
}

/// Entry `i` is `alpha s1[i] + (1 + alpha) s0[i]`: the line through
/// `(0, s0[i])` and `(1, s1[i])` at `alpha`.
pub open spec fn spec_evals_at_x<F: BinaryField>(s0: Seq<F>, s1: Seq<F>, alpha: F) -> Seq<F> {
    Seq::new(
        if s0.len() <= s1.len() {
            s0.len()
        } else {
            s1.len()
        },
        |i: int|
            F::spec_add(
                F::spec_mul(alpha, s1[i]),
                F::spec_mul(F::spec_add(F::spec_one(), alpha), s0[i]),
            ),
    )
}

/// The values of the lines through `(0, evals_at_0[i])` and
/// `(1, evals_at_1[i])` at `alpha`.
pub fn evals_at_x<F: BinaryField>(evals_at_0: &Vec<F>, evals_at_1: &Vec<F>, alpha: F) -> (r: Vec<F>)
    ensures
        r@ == spec_evals_at_x(evals_at_0@, evals_at_1@, alpha),
{
    let len = if evals_at_0.len() <= evals_at_1.len() {
        evals_at_0.len()
    } else {
        evals_at_1.len()
    };
    let one = F::one();
    let mut out: Vec<F> = Vec::with_capacity(len);
    let mut i: usize = 0;
    while i < len
        invariant
            i <= len,
            len <= evals_at_0.len(),
            len <= evals_at_1.len(),
            one == F::spec_one(),
            out@.len() == i,
            forall|q: int| 0 <= q < i ==> #[trigger] out@[q] == spec_evals_at_x(evals_at_0@, evals_at_1@, alpha)[q],
        decreases len - i,
    {
        let v0 = evals_at_0[i];
        let v1 = evals_at_1[i];
        out.push(alpha.mul(v1).add(one.add(alpha).mul(v0)));
        i = i + 1;
    }
    assert(out@ =~= spec_evals_at_x(evals_at_0@, evals_at_1@, alpha));
    out
}

impl<F: BinaryField> Clone for MultiLinearPoly<F> {
    fn clone(&self) -> (r: Self)
        ensures
            r@ == self@,
            r.spec_num_vars() == self.spec_num_vars(),
    {
        self.duplicate()
    }
}

} // verus!
