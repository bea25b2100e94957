//! Quadratic round polynomials of the sumcheck protocol, and the plain and
//! product sumcheck provers and verifiers.
use crate::binary_field::{random, BinaryField};
use crate::multilinear_poly::{
    eval_013_product, lemma_partial_eval_len, lemma_partial_eval_snoc, lemma_sum_concat, spec_eval_013_product,
    spec_evals_at_three, spec_fold_once, spec_inner, spec_partial_eval, spec_sum, MultiLinearPoly,
};
use vstd::arithmetic::power2::*;
use vstd::prelude::*;

verus! {

/// The values of a round polynomial at 0, 1 and the third point.
#[derive(Clone, Copy, Debug, Hash)]
pub struct QuadraticEvals<F: BinaryField> {
    pub e0: F,
    pub e1: F,
    pub e2: F,
}

/// The round polynomial `a x^2 + b x + c`.
#[derive(Clone, Copy, Debug)]
pub struct QuadraticPoly<F: BinaryField> {
    pub a: F,
    pub b: F,
    pub c: F,
}

impl<F: BinaryField> QuadraticEvals<F> {
    pub fn new(e0: F, e1: F, e2: F) -> (r: Self)
        ensures
            r.e0 == e0,
            r.e1 == e1,
            r.e2 == e2,
    {
        Self { e0, e1, e2 }
    }

    /// The bytes of the three values, in order.
    pub open spec fn spec_to_bytes(self) -> Seq<u8> {
        self.e0.spec_to_bytes() + self.e1.spec_to_bytes() + self.e2.spec_to_bytes()
    }

    /// The bytes of the three values, in order (what a transcript absorbs).
    pub fn to_bytes(&self) -> (r: Vec<u8>)
        ensures
            r@ == self.spec_to_bytes(),
    {
        let mut out = self.e0.to_bytes();
        let mut b1 = self.e1.to_bytes();
        let mut b2 = self.e2.to_bytes();
        out.append(&mut b1);
        out.append(&mut b2);
        out
    }
}

/// `a r^2 + b r + c`, evaluated as `((a r) r + b r) + c`.
pub open spec fn spec_eval_quadratic<F: BinaryField>(p: QuadraticPoly<F>, r: F) -> F {
    F::spec_add(
        F::spec_add(F::spec_mul(F::spec_mul(p.a, r), r), F::spec_mul(p.b, r)),
        p.c,
    )
}

impl<F: BinaryField> QuadraticPoly<F> {
    pub fn new(a: F, b: F, c: F) -> (r: Self)
        ensures
            r.a == a,
            r.b == b,
            r.c == c,
    {
        Self { a, b, c }
    }

    pub fn eval_quadratic(&self, r: F) -> (v: F)
        ensures
            v == spec_eval_quadratic(*self, r),
    {
        self.a.mul(r).mul(r).add(self.b.mul(r)).add(self.c)
    }
}

/// The default third interpolation point, 3.
pub open spec fn spec_three<F: BinaryField>() -> F {
    F::spec_from_nat(3)
}

/// `x` is usable as the third interpolation point: `x^2 + x != 0`.
pub open spec fn valid_third_point<F: BinaryField>(x: F) -> bool {
    F::spec_add(F::spec_mul(x, x), x) != F::spec_zero()
}

/// The quadratic through `(0, at0)`, `(1, at1)` and `(x, atx)`:
/// `a = (atx + at0 + x (at1 + at0)) / (x^2 + x)`, `b = at1 + at0 + a`,
/// `c = at0`.
pub open spec fn spec_quadratic_from_evals<F: BinaryField>(at0: F, at1: F, atx: F, x: F) -> QuadraticPoly<F> {
    let numerator = F::spec_add(F::spec_add(atx, at0), F::spec_mul(x, F::spec_add(at1, at0)));
    let denominator = F::spec_add(F::spec_mul(x, x), x);
    let a = F::spec_mul(numerator, denominator.spec_inverse());
    QuadraticPoly { a, b: F::spec_add(F::spec_add(at1, at0), a), c: at0 }
}

/// The third point that `x` selects (3 when `None`).
pub open spec fn spec_third_point<F: BinaryField>(x: Option<F>) -> F {
    match x {
        Some(v) => v,
        None => spec_three::<F>(),
    }
}

/// The quadratic through `(0, at0)`, `(1, at1)` and `(x, atx)`, with `x = 3`
/// when `None`.
pub fn quadratic_from_evals<F: BinaryField>(at0: F, at1: F, atx: F, x: Option<F>) -> (r: QuadraticPoly<F>)
    requires
        valid_third_point(spec_third_point(x)),
    ensures
        r == spec_quadratic_from_evals(at0, at1, atx, spec_third_point(x)),
{
    proof {
        F::lemma_order();
    }
    let x = match x {
        Some(v) => v,
        None => F::from_usize(3),
    };
    let numerator = atx.add(at0).add(x.mul(at1.add(at0)));
    let denominator = x.mul(x).add(x);
    let inv = match denominator.inverse() {
        Ok(v) => v,
        Err(_) => {
            proof {
                assert(false);
            }
            F::zero()
        },
    };
    let a = numerator.mul(inv);
    let b = at1.add(at0).add(a);
    QuadraticPoly { a, b, c: at0 }
}

/// The default third point 3 is a valid interpolation point.
pub proof fn lemma_three_is_valid<F: BinaryField>()
    ensures
        valid_third_point(spec_three::<F>()),
{
    F::lemma_three_is_not_a_root();
}

/// The quadratic built from evaluations at 0, 1 and `x` takes the given
/// values at 0 and at 1.
pub proof fn lemma_quadratic_from_evals_at_0_and_1<F: BinaryField>(at0: F, at1: F, atx: F, x: F)
    ensures
        spec_eval_quadratic(spec_quadratic_from_evals(at0, at1, atx, x), F::spec_zero()) == at0,
        spec_eval_quadratic(spec_quadratic_from_evals(at0, at1, atx, x), F::spec_one()) == at1,
{
    let p = spec_quadratic_from_evals(at0, at1, atx, x);
    let zero = F::spec_zero();
    let one = F::spec_one();
    // at 0
    F::lemma_mul_zero(p.a);
    F::lemma_mul_zero(zero);
    F::lemma_mul_zero(p.b);
    F::lemma_add_zero(zero);
    F::lemma_add_zero(at0);
    // at 1: a + b + c = a + (at1 + at0 + a) + at0 = at1
    F::lemma_mul_one(p.a);
    F::lemma_mul_one(p.b);
    let a = p.a;
    let s = F::spec_add(at1, at0);
    F::lemma_add_comm(s, a);
    F::lemma_add_assoc(a, a, s);
    F::lemma_add_self(a);
    F::lemma_add_zero(s);
    F::lemma_add_assoc(at1, at0, at0);
    F::lemma_add_self(at0);
    F::lemma_add_zero(at1);
}

/// `(a + b) + (c + d) == (a + c) + (b + d)`.
pub proof fn lemma_add_swap_mid<F: BinaryField>(a: F, b: F, c: F, d: F)
    ensures
        F::spec_add(F::spec_add(a, b), F::spec_add(c, d)) == F::spec_add(F::spec_add(a, c), F::spec_add(b, d)),
{
    F::lemma_add_assoc(F::spec_add(a, b), c, d);
    F::lemma_add_assoc(a, b, c);
    F::lemma_add_comm(b, c);
    F::lemma_add_assoc(a, c, b);
    F::lemma_add_assoc(F::spec_add(a, c), b, d);
}

/// `(a b) (c d) == (a c) (b d)`.
proof fn lemma_mul_swap_mid<F: BinaryField>(a: F, b: F, c: F, d: F)
    ensures
        F::spec_mul(F::spec_mul(a, b), F::spec_mul(c, d)) == F::spec_mul(F::spec_mul(a, c), F::spec_mul(b, d)),
{
    F::lemma_mul_assoc(F::spec_mul(a, b), c, d);
    F::lemma_mul_assoc(a, b, c);
    F::lemma_mul_comm(b, c);
    F::lemma_mul_assoc(a, c, b);
    F::lemma_mul_assoc(F::spec_mul(a, c), b, d);
}

/// `a + b + b == a`.
proof fn lemma_add_cancel<F: BinaryField>(a: F, b: F)
    ensures
        F::spec_add(F::spec_add(a, b), b) == a,
        F::spec_add(b, F::spec_add(b, a)) == a,
{
    F::lemma_add_assoc(a, b, b);
    F::lemma_add_self(b);
    F::lemma_add_zero(a);
    F::lemma_add_assoc(b, b, a);
}

/// The line through `u0` at 0 and `u1` at 1, at `x`: `(1 + x) u0 + x u1`.
pub open spec fn spec_line<F: BinaryField>(u0: F, u1: F, x: F) -> F {
    F::spec_add(F::spec_mul(F::spec_add(F::spec_one(), x), u0), F::spec_mul(x, u1))
}

/// The line is `u0 + x (u0 + u1)`.
proof fn lemma_line<F: BinaryField>(u0: F, u1: F, x: F)
    ensures
        spec_line(u0, u1, x) == F::spec_add(u0, F::spec_mul(x, F::spec_add(u0, u1))),
{
    let one = F::spec_one();
    F::lemma_mul_comm(F::spec_add(one, x), u0);
    F::lemma_mul_distrib(u0, one, x);
    F::lemma_mul_one(u0);
    F::lemma_mul_comm(u0, x);
    F::lemma_mul_distrib(x, u0, u1);
    F::lemma_add_assoc(u0, F::spec_mul(x, u0), F::spec_mul(x, u1));
}

/// The product of two lines as a quadratic: with `du = u0 + u1` and
/// `dv = v0 + v1`, `du dv x^2 + (u0 dv + du v0) x + u0 v0`.
pub open spec fn spec_line_product<F: BinaryField>(u0: F, u1: F, v0: F, v1: F) -> QuadraticPoly<F> {
    let du = F::spec_add(u0, u1);
    let dv = F::spec_add(v0, v1);
    QuadraticPoly {
        a: F::spec_mul(du, dv),
        b: F::spec_add(F::spec_mul(u0, dv), F::spec_mul(du, v0)),
        c: F::spec_mul(u0, v0),
    }
}

/// The product of two lines at `x` is their product quadratic at `x`.
proof fn lemma_line_product<F: BinaryField>(u0: F, u1: F, v0: F, v1: F, x: F)
    ensures
        F::spec_mul(spec_line(u0, u1, x), spec_line(v0, v1, x)) == spec_eval_quadratic(
            spec_line_product(u0, u1, v0, v1),
            x,
        ),
{
    let du = F::spec_add(u0, u1);
    let dv = F::spec_add(v0, v1);
    let xu = F::spec_mul(x, du);
    let xv = F::spec_mul(x, dv);
    let p = F::spec_add(u0, xu);
    let q = F::spec_add(v0, xv);
    lemma_line(u0, u1, x);
    lemma_line(v0, v1, x);
    // p q = (v0 u0 + v0 xu) + (xv u0 + xv xu)
    F::lemma_mul_distrib(p, v0, xv);
    F::lemma_mul_comm(p, v0);
    F::lemma_mul_distrib(v0, u0, xu);
    F::lemma_mul_comm(p, xv);
    F::lemma_mul_distrib(xv, u0, xu);
    let t1 = F::spec_mul(v0, u0);
    let t2 = F::spec_mul(v0, xu);
    let t3 = F::spec_mul(xv, u0);
    let t4 = F::spec_mul(xv, xu);
    assert(F::spec_mul(p, q) == F::spec_add(F::spec_add(t1, t2), F::spec_add(t3, t4)));
    // the quadratic at x
    let qa = F::spec_mul(du, dv);
    let qb = F::spec_add(F::spec_mul(u0, dv), F::spec_mul(du, v0));
    // (qa x) x == xv xu
    F::lemma_mul_assoc(qa, x, x);
    F::lemma_mul_comm(qa, F::spec_mul(x, x));
    F::lemma_mul_comm(du, dv);
    lemma_mul_swap_mid(x, dv, x, du);
    assert(F::spec_mul(F::spec_mul(qa, x), x) == t4);
    // qb x == t3 + t2
    F::lemma_mul_comm(qb, x);
    F::lemma_mul_distrib(x, F::spec_mul(u0, dv), F::spec_mul(du, v0));
    F::lemma_mul_assoc(x, dv, u0);
    F::lemma_mul_comm(dv, u0);
    F::lemma_mul_assoc(x, u0, dv);
    F::lemma_mul_comm(u0, dv);
    assert(F::spec_mul(x, F::spec_mul(u0, dv)) == t3);
    F::lemma_mul_assoc(x, du, v0);
    F::lemma_mul_comm(xu, v0);
    assert(F::spec_mul(x, F::spec_mul(du, v0)) == t2);
    assert(F::spec_mul(qb, x) == F::spec_add(t3, t2));
    // c == t1
    F::lemma_mul_comm(u0, v0);
    // (t4 + (t3 + t2)) + t1 == (t1 + t2) + (t3 + t4)
    F::lemma_add_comm(F::spec_add(t4, F::spec_add(t3, t2)), t1);
    F::lemma_add_comm(t3, t2);
    F::lemma_add_comm(t4, F::spec_add(t2, t3));
    F::lemma_add_assoc(t2, t3, t4);
    F::lemma_add_assoc(t1, t2, F::spec_add(t3, t4));
}

/// Interpolation through 0, 1 and 3 recovers every quadratic from its
/// values there.
pub proof fn lemma_quadratic_from_evals_recovers<F: BinaryField>(p: QuadraticPoly<F>)
    ensures
        spec_quadratic_from_evals(
            spec_eval_quadratic(p, F::spec_zero()),
            spec_eval_quadratic(p, F::spec_one()),
            spec_eval_quadratic(p, spec_three::<F>()),
            spec_three::<F>(),
        ) == p,
{
    let zero = F::spec_zero();
    let one = F::spec_one();
    let x = spec_three::<F>();
    let a = p.a;
    let b = p.b;
    let c = p.c;
    let at0 = spec_eval_quadratic(p, zero);
    let at1 = spec_eval_quadratic(p, one);
    let at3 = spec_eval_quadratic(p, x);
    // at0 == c, at1 == (a + b) + c
    F::lemma_mul_zero(a);
    F::lemma_mul_zero(zero);
    F::lemma_mul_zero(b);
    F::lemma_add_zero(zero);
    F::lemma_add_zero(c);
    assert(at0 == c);
    F::lemma_mul_one(a);
    F::lemma_mul_one(b);
    assert(at1 == F::spec_add(F::spec_add(a, b), c));
    // at3 + at0 == (a x) x + b x, at1 + at0 == a + b
    let ax2 = F::spec_mul(F::spec_mul(a, x), x);
    let bx = F::spec_mul(b, x);
    lemma_add_cancel(F::spec_add(ax2, bx), c);
    lemma_add_cancel(F::spec_add(a, b), c);
    // numerator == (ax2 + bx) + (x a + x b) == ax2 + x a
    F::lemma_mul_distrib(x, a, b);
    let xa = F::spec_mul(x, a);
    let xb = F::spec_mul(x, b);
    lemma_add_swap_mid(ax2, bx, xa, xb);
    F::lemma_mul_comm(b, x);
    F::lemma_add_self(bx);
    F::lemma_add_zero(F::spec_add(ax2, xa));
    let num = F::spec_add(F::spec_add(at3, at0), F::spec_mul(x, F::spec_add(at1, at0)));
    assert(num == F::spec_add(ax2, xa));
    // ax2 + x a == a (x x + x) == a d
    let d = F::spec_add(F::spec_mul(x, x), x);
    F::lemma_mul_assoc(a, x, x);
    F::lemma_mul_comm(x, a);
    F::lemma_mul_distrib(a, F::spec_mul(x, x), x);
    assert(num == F::spec_mul(a, d));
    // (a d) d^-1 == a
    F::lemma_three_denominator_inverse();
    F::lemma_mul_assoc(a, d, d.spec_inverse());
    let q = spec_quadratic_from_evals(at0, at1, at3, x);
    assert(q.a == a);
    // b' == (a + b) + a == b
    F::lemma_add_comm(a, b);
    lemma_add_cancel(b, a);
    assert(q.b == b);
    assert(q.c == c);
}

/// The quadratic built from values at 0, 1 and 3 takes the given value at 3.
pub proof fn lemma_quadratic_from_evals_at_three<F: BinaryField>(at0: F, at1: F, atx: F)
    ensures
        spec_eval_quadratic(spec_quadratic_from_evals(at0, at1, atx, spec_three::<F>()), spec_three::<F>()) == atx,
{
    let x = spec_three::<F>();
    let p = spec_quadratic_from_evals(at0, at1, atx, x);
    let s = F::spec_add(at1, at0);
    let d = F::spec_add(F::spec_mul(x, x), x);
    let num = F::spec_add(F::spec_add(atx, at0), F::spec_mul(x, s));
    let a = p.a;
    // (a x) x + (s + a) x == a d + s x
    F::lemma_mul_assoc(a, x, x);
    F::lemma_mul_comm(F::spec_add(s, a), x);
    F::lemma_mul_distrib(x, s, a);
    F::lemma_mul_comm(x, s);
    F::lemma_mul_comm(x, a);
    let axx = F::spec_mul(a, F::spec_mul(x, x));
    let sx = F::spec_mul(s, x);
    let ax = F::spec_mul(a, x);
    F::lemma_add_comm(sx, ax);
    F::lemma_add_assoc(axx, ax, sx);
    F::lemma_mul_distrib(a, F::spec_mul(x, x), x);
    assert(F::spec_add(F::spec_mul(F::spec_mul(a, x), x), F::spec_mul(p.b, x)) == F::spec_add(
        F::spec_mul(a, d),
        sx,
    ));
    // a d == num
    F::lemma_three_denominator_inverse();
    F::lemma_mul_assoc(num, d.spec_inverse(), d);
    F::lemma_mul_comm(d.spec_inverse(), d);
    F::lemma_mul_one(num);
    assert(F::spec_mul(a, d) == num);
    // (num + s x) + at0 == atx
    F::lemma_mul_comm(x, s);
    lemma_add_cancel(F::spec_add(atx, at0), sx);
    lemma_add_cancel(atx, at0);
}

/// `p1 + alpha p2`, coefficient by coefficient.
pub open spec fn spec_fold_quadratic<F: BinaryField>(p1: QuadraticPoly<F>, p2: QuadraticPoly<F>, alpha: F) -> QuadraticPoly<F> {
    QuadraticPoly {
        a: F::spec_add(p1.a, F::spec_mul(alpha, p2.a)),
        b: F::spec_add(p1.b, F::spec_mul(alpha, p2.b)),
        c: F::spec_add(p1.c, F::spec_mul(alpha, p2.c)),
    }
}

/// The linear combination `p1 + alpha p2`.
pub fn fold_quadratic<F: BinaryField>(p1: QuadraticPoly<F>, p2: QuadraticPoly<F>, alpha: F) -> (r: QuadraticPoly<F>)
    ensures
        r == spec_fold_quadratic(p1, p2, alpha),
{
    QuadraticPoly::new(
        p1.a.add(alpha.mul(p2.a)),
        p1.b.add(alpha.mul(p2.b)),
        p1.c.add(alpha.mul(p2.c)),
    )
}

/// The round values of a plain sumcheck: the sums of `s` with the first
/// variable at 0 and at 1.
pub open spec fn spec_round_sums<F: BinaryField>(s: Seq<F>) -> (F, F) {
    (spec_sum(s.subrange(0, (s.len() / 2) as int)), spec_sum(s.subrange((s.len() / 2) as int, s.len() as int)))
}

proof fn lemma_one_point<F: BinaryField>(s: Seq<F>, r: F)
    ensures
        spec_partial_eval(s, seq![r]) == spec_fold_once(s, r),
{
    assert(seq![r].drop_first() =~= Seq::<F>::empty());
    assert(spec_partial_eval(spec_fold_once(s, r), Seq::<F>::empty()) == spec_fold_once(s, r));
}

/// Runs a plain sumcheck of `f` with claimed sum `claimed_sum` (the sum of
/// its evaluations) and random challenges: round `i` sends the round values
/// of `f` with its first `i` variables fixed to the first `i` challenges.
pub fn sumcheck_prover<F: BinaryField>(f: &MultiLinearPoly<F>, claimed_sum: F) -> (r: (Vec<(F, F)>, Vec<F>))
    requires
        f.spec_num_vars() >= 1 ==> claimed_sum == spec_sum(f@),
    ensures
        r.0@.len() == f.spec_num_vars(),
        r.1@.len() == f.spec_num_vars(),
        forall|i: int|
            0 <= i < r.0@.len() ==> #[trigger] r.0@[i] == spec_round_sums(
                spec_partial_eval(f@, r.1@.subrange(0, i)),
            ),
{
    let num_vars = f.num_vars();
    let mut transcript: Vec<(F, F)> = Vec::with_capacity(num_vars);
    let mut ris: Vec<F> = Vec::with_capacity(num_vars);
    let mut current_poly = f.duplicate();
    let mut current_sum = claimed_sum;
    let mut i: usize = 0;
    while i < num_vars
        invariant
            i <= num_vars,
            num_vars == f.spec_num_vars(),
            ris@.len() == i,
            transcript@.len() == i,
            current_poly@ == spec_partial_eval(f@, ris@),
            current_poly.spec_num_vars() == num_vars - i,
            num_vars >= 1 ==> current_sum == spec_sum(current_poly@),
            forall|t: int|
                0 <= t < i ==> #[trigger] transcript@[t] == spec_round_sums(
                    spec_partial_eval(f@, ris@.subrange(0, t)),
                ),
        decreases num_vars - i,
    {
        let (s0, s1) = current_poly.eval_012();
        proof {
            let c = current_poly@;
            let h = (c.len() / 2) as int;
            assert(c.subrange(0, h) + c.subrange(h, c.len() as int) =~= c);
            lemma_sum_concat(c.subrange(0, h), c.subrange(h, c.len() as int));
            assert(F::spec_add(s0, s1) == current_sum);
            assert(ris@.subrange(0, i as int) =~= ris@);
        }
        transcript.push((s0, s1));
        let r_i = random::<F>();
        let ghost old_ris = ris@;
        ris.push(r_i);
        let rs: Vec<F> = vec![r_i];
        let ghost c = current_poly@;
        current_poly = current_poly.partial_eval(rs.as_slice());
        current_sum = current_poly.sum();
        proof {
            lemma_one_point(c, r_i);
            lemma_partial_eval_snoc(f@, old_ris, r_i);
            assert(rs@ =~= seq![r_i]);
            assert(seq![r_i].drop_first() =~= Seq::<F>::empty());
            assert forall|t: int| 0 <= t < i + 1 implies #[trigger] transcript@[t] == spec_round_sums(
                spec_partial_eval(f@, ris@.subrange(0, t)),
            ) by {
                assert(ris@.subrange(0, t) =~= old_ris.subrange(0, t));
            }
        }
        i = i + 1;
    }
    (transcript, ris)
}

/// The plain sumcheck rounds `0 .. k`: each round's values must add up to
/// the running claim, which then becomes the line through them at the
/// round's challenge; `None` at the first round that fails.
pub open spec fn spec_sumcheck_rounds<F: BinaryField>(tr: Seq<(F, F)>, ris: Seq<F>, h: F, k: nat) -> Option<F>
    decreases k,
{
    if k == 0 {
        Some(h)
    } else {
        match spec_sumcheck_rounds(tr, ris, h, (k - 1) as nat) {
            None => None,
            Some(hp) => {
                let g0 = tr[k - 1].0;
                let g1 = tr[k - 1].1;
                if F::spec_add(g0, g1) != hp {
                    None
                } else {
                    Some(
                        F::spec_add(
                            F::spec_mul(g0, F::spec_add(F::spec_one(), ris[k - 1])),
                            F::spec_mul(g1, ris[k - 1]),
                        ),
                    )
                }
            },
        }
    }
}

/// Checks a plain sumcheck transcript against `f` at the challenges: every
/// round must be consistent and the final claim must be the sum of `f` with
/// its first variables fixed to the challenges.
pub fn sumcheck_verifier<F: BinaryField>(
    transcript: Vec<(F, F)>,
    ris: Vec<F>,
    claimed_sum: F,
    f: &MultiLinearPoly<F>,
) -> (r: bool)
    requires
        ris@.len() >= transcript@.len(),
        1 <= ris@.len() <= f.spec_num_vars(),
    ensures
        r == match spec_sumcheck_rounds(transcript@, ris@, claimed_sum, transcript@.len() as nat) {
            None => false,
            Some(h) => spec_sum(spec_partial_eval(f@, ris@)) == h,
        },
{
    let one = F::one();
    let mut h = claimed_sum;
    let mut i: usize = 0;
    while i < transcript.len()
        invariant
            i <= transcript@.len(),
            ris@.len() >= transcript@.len(),
            one == F::spec_one(),
            spec_sumcheck_rounds(transcript@, ris@, claimed_sum, i as nat) == Some(h),
        decreases transcript@.len() - i,
    {
        let (g0, g1) = transcript[i];
        if !g0.add(g1).equals(&h) {
            proof {
                lemma_rounds_none_stays(transcript@, ris@, claimed_sum, (i + 1) as nat, transcript@.len() as nat);
            }
            return false;
        }
        let ri = ris[i];
        h = g0.mul(one.add(ri)).add(g1.mul(ri));
        i = i + 1;
    }
    let f_eval = f.partial_eval(ris.as_slice()).sum();
    f_eval.equals(&h)
}

proof fn lemma_rounds_none_stays<F: BinaryField>(tr: Seq<(F, F)>, ris: Seq<F>, h: F, a: nat, b: nat)
    requires
        a <= b,
        spec_sumcheck_rounds(tr, ris, h, a) is None,
    ensures
        spec_sumcheck_rounds(tr, ris, h, b) is None,
    decreases b - a,
{
    if a < b {
        lemma_rounds_none_stays(tr, ris, h, a, (b - 1) as nat);
    }
}

/// Runs a product sumcheck of `fp` and `gp` with random challenges: round
/// `i` sends the round values at 0, 1 and 3 of the product with the first
/// `i` variables fixed to the first `i` challenges.
pub fn double_sumcheck_prover<F: BinaryField>(fp: &MultiLinearPoly<F>, gp: &MultiLinearPoly<F>) -> (r: (
    Vec<(F, F, F)>,
    Vec<F>,
))
    requires
        fp.spec_num_vars() == gp.spec_num_vars(),
    ensures
        r.0@.len() == fp.spec_num_vars(),
        r.1@.len() == fp.spec_num_vars(),
        forall|i: int|
            0 <= i < r.0@.len() ==> #[trigger] r.0@[i] == spec_eval_013_product(
                spec_partial_eval(fp@, r.1@.subrange(0, i)),
                spec_partial_eval(gp@, r.1@.subrange(0, i)),
            ),
{
    let num_vars = fp.num_vars();
    let mut transcript: Vec<(F, F, F)> = Vec::with_capacity(num_vars);
    let mut f = fp.duplicate();
    let mut g = gp.duplicate();
    let mut ris: Vec<F> = Vec::with_capacity(num_vars);
    let mut i: usize = 0;
    while i < num_vars
        invariant
            i <= num_vars,
            num_vars == fp.spec_num_vars(),
            num_vars == gp.spec_num_vars(),
            ris@.len() == i,
            transcript@.len() == i,
            f@ == spec_partial_eval(fp@, ris@),
            g@ == spec_partial_eval(gp@, ris@),
            f.spec_num_vars() == num_vars - i,
            g.spec_num_vars() == num_vars - i,
            forall|t: int|
                0 <= t < i ==> #[trigger] transcript@[t] == spec_eval_013_product(
                    spec_partial_eval(fp@, ris@.subrange(0, t)),
                    spec_partial_eval(gp@, ris@.subrange(0, t)),
                ),
        decreases num_vars - i,
    {
        let (s0, s1, s2) = eval_013_product(&f, &g);
        proof {
            assert(ris@.subrange(0, i as int) =~= ris@);
        }
        transcript.push((s0, s1, s2));
        let r_i = random::<F>();
        let ghost old_ris = ris@;
        ris.push(r_i);
        let rs: Vec<F> = vec![r_i];
        let ghost cf = f@;
        let ghost cg = g@;
        f = f.partial_eval(rs.as_slice());
        g = g.partial_eval(rs.as_slice());
        proof {
            lemma_one_point(cf, r_i);
            lemma_one_point(cg, r_i);
            lemma_partial_eval_snoc(fp@, old_ris, r_i);
            lemma_partial_eval_snoc(gp@, old_ris, r_i);
            assert(rs@ =~= seq![r_i]);
            assert(seq![r_i].drop_first() =~= Seq::<F>::empty());
            assert forall|t: int| 0 <= t < i + 1 implies #[trigger] transcript@[t] == spec_eval_013_product(
                spec_partial_eval(fp@, ris@.subrange(0, t)),
                spec_partial_eval(gp@, ris@.subrange(0, t)),
            ) by {
                assert(ris@.subrange(0, t) =~= old_ris.subrange(0, t));
            }
        }
        i = i + 1;
    }
    (transcript, ris)
}

/// The product sumcheck rounds `0 .. k`: each round's values must add up
/// to the running claim, which then becomes the quadratic through them (at
/// 0, 1 and 3) at the round's challenge; `None` at the first round that
/// fails.
pub open spec fn spec_double_sumcheck_rounds<F: BinaryField>(tr: Seq<(F, F, F)>, ris: Seq<F>, h: F, k: nat) -> Option<F>
    decreases k,
{
    if k == 0 {
        Some(h)
    } else {
        match spec_double_sumcheck_rounds(tr, ris, h, (k - 1) as nat) {
            None => None,
            Some(hp) => {
                let t = tr[k - 1];
                if F::spec_add(t.0, t.1) != hp {
                    None
                } else {
                    Some(spec_eval_quadratic(spec_quadratic_from_evals(t.0, t.1, t.2, spec_three::<F>()), ris[k - 1]))
                }
            },
        }
    }
}

proof fn lemma_double_rounds_none_stays<F: BinaryField>(tr: Seq<(F, F, F)>, ris: Seq<F>, h: F, a: nat, b: nat)
    requires
        a <= b,
        spec_double_sumcheck_rounds(tr, ris, h, a) is None,
    ensures
        spec_double_sumcheck_rounds(tr, ris, h, b) is None,
    decreases b - a,
{
    if a < b {
        lemma_double_rounds_none_stays(tr, ris, h, a, (b - 1) as nat);
    }
}

/// Checks a product sumcheck transcript against `fp` and `gp` at the
/// challenges: every round must be consistent and the final claim must be
/// the product of the sums of `fp` and `gp` with their first variables
/// fixed to the challenges.
pub fn double_sumcheck_verifier<F: BinaryField>(
    transcript: Vec<(F, F, F)>,
    ris: Vec<F>,
    claimed_sum: F,
    fp: &MultiLinearPoly<F>,
    gp: &MultiLinearPoly<F>,
) -> (r: bool)
    requires
        ris@.len() >= transcript@.len(),
        1 <= ris@.len() <= fp.spec_num_vars(),
        ris@.len() <= gp.spec_num_vars(),
    ensures
        r == match spec_double_sumcheck_rounds(transcript@, ris@, claimed_sum, transcript@.len() as nat) {
            None => false,
            Some(h) => F::spec_mul(
                spec_sum(spec_partial_eval(fp@, ris@)),
                spec_sum(spec_partial_eval(gp@, ris@)),
            ) == h,
        },
{
    let mut h = claimed_sum;
    let mut i: usize = 0;
    proof {
        lemma_three_is_valid::<F>();
    }
    while i < transcript.len()
        invariant
            i <= transcript@.len(),
            ris@.len() >= transcript@.len(),
            valid_third_point(spec_three::<F>()),
            spec_double_sumcheck_rounds(transcript@, ris@, claimed_sum, i as nat) == Some(h),
        decreases transcript@.len() - i,
    {
        let (g0, g1, g2) = transcript[i];
        if !g0.add(g1).equals(&h) {
            proof {
                lemma_double_rounds_none_stays(transcript@, ris@, claimed_sum, (i + 1) as nat, transcript@.len() as nat);
            }
            return false;
        }
        let gi = quadratic_from_evals(g0, g1, g2, None);
        h = gi.eval_quadratic(ris[i]);
        i = i + 1;
    }
    let f_eval = fp.partial_eval(ris.as_slice()).sum();
    let g_eval = gp.partial_eval(ris.as_slice()).sum();
    f_eval.mul(g_eval).equals(&h)
}

// ---------------------------------------------------------------------------
// Completeness of the plain sumcheck
// ---------------------------------------------------------------------------

/// The sum of entrywise sums is the sum of the sums.
pub proof fn lemma_sum_pointwise_add<F: BinaryField>(x: Seq<F>, y: Seq<F>)
    requires
        x.len() == y.len(),
    ensures
        spec_sum(Seq::new(x.len(), |i: int| F::spec_add(x[i], y[i]))) == F::spec_add(spec_sum(x), spec_sum(y)),
    decreases x.len(),
{
    let z = Seq::new(x.len(), |i: int| F::spec_add(x[i], y[i]));
    if x.len() == 0 {
        F::lemma_add_zero(F::spec_zero());
    } else {
        let x0 = x.drop_last();
        let y0 = y.drop_last();
        lemma_sum_pointwise_add(x0, y0);
        assert(z.drop_last() =~= Seq::new(x0.len(), |i: int| F::spec_add(x0[i], y0[i])));
        let a = spec_sum(x0);
        let b = spec_sum(y0);
        let c = x.last();
        let d = y.last();
        // (a + b) + (c + d) == (a + c) + (b + d)
        F::lemma_add_assoc(F::spec_add(a, b), c, d);
        F::lemma_add_assoc(a, b, c);
        F::lemma_add_comm(b, c);
        F::lemma_add_assoc(a, c, b);
        F::lemma_add_assoc(F::spec_add(a, c), b, d);
    }
}

/// A scalar times a sum is the sum of the scaled entries.
pub proof fn lemma_sum_scale<F: BinaryField>(s: F, x: Seq<F>)
    ensures
        spec_sum(Seq::new(x.len(), |i: int| F::spec_mul(s, x[i]))) == F::spec_mul(s, spec_sum(x)),
    decreases x.len(),
{
    let z = Seq::new(x.len(), |i: int| F::spec_mul(s, x[i]));
    if x.len() == 0 {
        F::lemma_mul_zero(s);
    } else {
        let x0 = x.drop_last();
        lemma_sum_scale(s, x0);
        assert(z.drop_last() =~= Seq::new(x0.len(), |i: int| F::spec_mul(s, x0[i])));
        F::lemma_mul_distrib(s, spec_sum(x0), x.last());
    }
}

/// Fixing the first variable to `r` sums to the line through the two
/// half sums at `r`.
proof fn lemma_sum_fold_once<F: BinaryField>(c: Seq<F>, r: F)
    requires
        c.len() % 2 == 0,
    ensures
        spec_sum(spec_fold_once(c, r)) == F::spec_add(
            F::spec_mul(spec_round_sums(c).0, F::spec_add(F::spec_one(), r)),
            F::spec_mul(spec_round_sums(c).1, r),
        ),
{
    let h = c.len() / 2;
    let lo = c.subrange(0, h as int);
    let hi = c.subrange(h as int, c.len() as int);
    let one_r = F::spec_add(F::spec_one(), r);
    let xs = Seq::new(h, |i: int| F::spec_mul(one_r, lo[i]));
    let ys = Seq::new(h, |i: int| F::spec_mul(r, hi[i]));
    assert(spec_fold_once(c, r) =~= Seq::new(xs.len(), |i: int| F::spec_add(xs[i], ys[i])));
    lemma_sum_pointwise_add(xs, ys);
    assert(xs =~= Seq::new(lo.len(), |i: int| F::spec_mul(one_r, lo[i])));
    assert(ys =~= Seq::new(hi.len(), |i: int| F::spec_mul(r, hi[i])));
    lemma_sum_scale(one_r, lo);
    lemma_sum_scale(r, hi);
    F::lemma_mul_comm(one_r, spec_sum(lo));
    F::lemma_mul_comm(r, spec_sum(hi));
}

/// The sumcheck rounds on the honest transcript of `f` at `ris`, up to round
/// `k`, end with the sum of `f` with its first `k` variables fixed.
proof fn lemma_sumcheck_rounds_honest<F: BinaryField>(f: Seq<F>, n: nat, ris: Seq<F>, tr: Seq<(F, F)>, k: nat)
    requires
        f.len() == pow2(n),
        ris.len() == n,
        tr.len() == n,
        k <= n,
        forall|i: int| 0 <= i < n ==> #[trigger] tr[i] == spec_round_sums(spec_partial_eval(f, ris.subrange(0, i))),
    ensures
        spec_sumcheck_rounds(tr, ris, spec_sum(f), k) == Some(spec_sum(spec_partial_eval(f, ris.subrange(0, k as int)))),
    decreases k,
{
    if k == 0 {
        assert(ris.subrange(0, 0) =~= Seq::<F>::empty());
    } else {
        let j = (k - 1) as nat;
        lemma_sumcheck_rounds_honest(f, n, ris, tr, j);
        let pre = ris.subrange(0, j as int);
        let c = spec_partial_eval(f, pre);
        crate::multilinear_poly::lemma_partial_eval_len(f, pre, n);
        lemma_pow2_unfold((n - j) as nat);
        let hh = (c.len() / 2) as int;
        assert(c.subrange(0, hh) + c.subrange(hh, c.len() as int) =~= c);
        lemma_sum_concat(c.subrange(0, hh), c.subrange(hh, c.len() as int));
        assert(tr[j as int] == spec_round_sums(c));
        lemma_sum_fold_once(c, ris[j as int]);
        lemma_partial_eval_snoc(f, pre, ris[j as int]);
        assert(pre.push(ris[j as int]) =~= ris.subrange(0, k as int));
    }
}

/// Completeness of the plain sumcheck: on the transcript that
/// `sumcheck_prover` sends for `f` and challenges `ris`, every round of the
/// verifier passes and the final claim is the sum of `f` with all its
/// variables fixed to `ris`, so `sumcheck_verifier` accepts.
pub proof fn lemma_sumcheck_complete<F: BinaryField>(f: Seq<F>, n: nat, ris: Seq<F>, tr: Seq<(F, F)>)
    requires
        f.len() == pow2(n),
        ris.len() == n,
        tr.len() == n,
        forall|i: int| 0 <= i < n ==> #[trigger] tr[i] == spec_round_sums(spec_partial_eval(f, ris.subrange(0, i))),
    ensures
        spec_sumcheck_rounds(tr, ris, spec_sum(f), n) == Some(spec_sum(spec_partial_eval(f, ris))),
{
    lemma_sumcheck_rounds_honest(f, n, ris, tr, n);
    assert(ris.subrange(0, n as int) =~= ris);
}

// ---------------------------------------------------------------------------
// Completeness of the product sumcheck
// ---------------------------------------------------------------------------

/// Coefficientwise sum of two quadratics.
pub open spec fn spec_quadratic_add<F: BinaryField>(p: QuadraticPoly<F>, q: QuadraticPoly<F>) -> QuadraticPoly<F> {
    QuadraticPoly { a: F::spec_add(p.a, q.a), b: F::spec_add(p.b, q.b), c: F::spec_add(p.c, q.c) }
}

/// The round polynomial of the product sumcheck: the sum, over the first `m`
/// positions `i`, of the products of the lines through `(c[i], c[i + h])` and
/// through `(d[i], d[i + h])`.
pub open spec fn spec_round_quadratic<F: BinaryField>(c: Seq<F>, d: Seq<F>, h: int, m: nat) -> QuadraticPoly<F>
    decreases m,
{
    if m == 0 {
        QuadraticPoly { a: F::spec_zero(), b: F::spec_zero(), c: F::spec_zero() }
    } else {
        spec_quadratic_add(
            spec_round_quadratic(c, d, h, (m - 1) as nat),
            spec_line_product(c[m - 1], c[m - 1 + h], d[m - 1], d[m - 1 + h]),
        )
    }
}

/// Evaluation is additive in the coefficients.
proof fn lemma_eval_quadratic_add<F: BinaryField>(p: QuadraticPoly<F>, q: QuadraticPoly<F>, x: F)
    ensures
        spec_eval_quadratic(spec_quadratic_add(p, q), x) == F::spec_add(
            spec_eval_quadratic(p, x),
            spec_eval_quadratic(q, x),
        ),
{
    let pa = F::spec_mul(p.a, x);
    let qa = F::spec_mul(q.a, x);
    F::lemma_mul_comm(F::spec_add(p.a, q.a), x);
    F::lemma_mul_distrib(x, p.a, q.a);
    F::lemma_mul_comm(x, p.a);
    F::lemma_mul_comm(x, q.a);
    F::lemma_mul_comm(F::spec_add(pa, qa), x);
    F::lemma_mul_distrib(x, pa, qa);
    F::lemma_mul_comm(x, pa);
    F::lemma_mul_comm(x, qa);
    F::lemma_mul_comm(F::spec_add(p.b, q.b), x);
    F::lemma_mul_distrib(x, p.b, q.b);
    F::lemma_mul_comm(x, p.b);
    F::lemma_mul_comm(x, q.b);
    let pa2 = F::spec_mul(pa, x);
    let qa2 = F::spec_mul(qa, x);
    let pb = F::spec_mul(p.b, x);
    let qb = F::spec_mul(q.b, x);
    lemma_add_swap_mid(pa2, qa2, pb, qb);
    lemma_add_swap_mid(F::spec_add(pa2, pb), F::spec_add(qa2, qb), p.c, q.c);
}

/// The round polynomial at `x` is the sum of the line products at `x`.
pub proof fn lemma_round_quadratic_eval<F: BinaryField>(c: Seq<F>, d: Seq<F>, h: int, m: nat, x: F)
    ensures
        spec_eval_quadratic(spec_round_quadratic(c, d, h, m), x) == spec_sum(
            Seq::new(m, |i: int| F::spec_mul(spec_line(c[i], c[i + h], x), spec_line(d[i], d[i + h], x))),
        ),
    decreases m,
{
    let s = Seq::new(m, |i: int| F::spec_mul(spec_line(c[i], c[i + h], x), spec_line(d[i], d[i + h], x)));
    if m == 0 {
        let z = F::spec_zero();
        F::lemma_mul_zero(z);
        F::lemma_mul_zero(x);
        F::lemma_add_zero(z);
    } else {
        let k = (m - 1) as nat;
        lemma_round_quadratic_eval(c, d, h, k, x);
        assert(s.drop_last() =~= Seq::new(
            k,
            |i: int| F::spec_mul(spec_line(c[i], c[i + h], x), spec_line(d[i], d[i + h], x)),
        ));
        lemma_line_product(c[k as int], c[k + h], d[k as int], d[k + h], x);
        lemma_eval_quadratic_add(
            spec_round_quadratic(c, d, h, k),
            spec_line_product(c[k as int], c[k + h], d[k as int], d[k + h]),
            x,
        );
    }
}

/// The line at 0 and at 1.
pub proof fn lemma_line_at_0_and_1<F: BinaryField>(u0: F, u1: F)
    ensures
        spec_line(u0, u1, F::spec_zero()) == u0,
        spec_line(u0, u1, F::spec_one()) == u1,
{
    lemma_line(u0, u1, F::spec_zero());
    lemma_line(u0, u1, F::spec_one());
    F::lemma_mul_zero(F::spec_add(u0, u1));
    F::lemma_mul_comm(F::spec_zero(), F::spec_add(u0, u1));
    F::lemma_add_zero(u0);
    F::lemma_mul_one(F::spec_add(u0, u1));
    F::lemma_mul_comm(F::spec_one(), F::spec_add(u0, u1));
    lemma_add_cancel(u1, u0);
    F::lemma_add_comm(u0, u1);
    F::lemma_add_assoc(u0, u0, u1);
}

/// One round of the product sumcheck on the honest values: the values at 0
/// and 1 add up to the inner product, and the quadratic through the values
/// at 0, 1 and 3 is, at `r`, the inner product with the first variable fixed
/// to `r`.
pub proof fn lemma_double_round<F: BinaryField>(c: Seq<F>, d: Seq<F>, r: F)
    requires
        c.len() == d.len(),
        c.len() >= 2,
        c.len() % 2 == 0,
    ensures
        ({
            let t = spec_eval_013_product(c, d);
            &&& F::spec_add(t.0, t.1) == spec_inner(c, d)
            &&& spec_quadratic_from_evals(t.0, t.1, t.2, spec_three::<F>()) == spec_round_quadratic(
                c,
                d,
                (c.len() / 2) as int,
                (c.len() / 2) as nat,
            )
            &&& spec_eval_quadratic(spec_quadratic_from_evals(t.0, t.1, t.2, spec_three::<F>()), r) == spec_inner(
                spec_fold_once(c, r),
                spec_fold_once(d, r),
            )
        }),
{
    let n = c.len() as int;
    let h = n / 2;
    let c0 = c.subrange(0, h);
    let c1 = c.subrange(h, n);
    let d0 = d.subrange(0, h);
    let d1 = d.subrange(h, n);
    let t = spec_eval_013_product(c, d);
    let q = spec_round_quadratic(c, d, h, h as nat);
    let zero = F::spec_zero();
    let one = F::spec_one();
    let three = spec_three::<F>();
    // at 0 and 1
    lemma_round_quadratic_eval(c, d, h, h as nat, zero);
    lemma_round_quadratic_eval(c, d, h, h as nat, one);
    assert forall|i: int| 0 <= i < h implies spec_line(c[i], c[i + h], zero) == c0[i] && spec_line(
        d[i],
        d[i + h],
        zero,
    ) == d0[i] && spec_line(c[i], c[i + h], one) == c1[i] && spec_line(d[i], d[i + h], one) == d1[i] by {
        lemma_line_at_0_and_1(c[i], c[i + h]);
        lemma_line_at_0_and_1(d[i], d[i + h]);
    }
    assert(Seq::new(h as nat, |i: int| F::spec_mul(spec_line(c[i], c[i + h], zero), spec_line(d[i], d[i + h], zero)))
        =~= Seq::new(h as nat, |i: int| F::spec_mul(c0[i], d0[i])));
    assert(Seq::new(h as nat, |i: int| F::spec_mul(spec_line(c[i], c[i + h], one), spec_line(d[i], d[i + h], one)))
        =~= Seq::new(h as nat, |i: int| F::spec_mul(c1[i], d1[i])));
    assert(t.0 == spec_eval_quadratic(q, zero));
    assert(t.1 == spec_eval_quadratic(q, one));
    // at 3
    lemma_round_quadratic_eval(c, d, h, h as nat, three);
    let e = spec_evals_at_three(c0, c1);
    let g = spec_evals_at_three(d0, d1);
    assert forall|i: int| 0 <= i < h implies spec_line(c[i], c[i + h], three) == e[i] && spec_line(
        d[i],
        d[i + h],
        three,
    ) == g[i] by {
        F::lemma_mul_comm(c1[i], three);
        F::lemma_add_comm(F::spec_mul(three, c1[i]), F::spec_mul(F::spec_add(one, three), c0[i]));
        F::lemma_mul_comm(d1[i], three);
        F::lemma_add_comm(F::spec_mul(three, d1[i]), F::spec_mul(F::spec_add(one, three), d0[i]));
    }
    assert(Seq::new(h as nat, |i: int| F::spec_mul(spec_line(c[i], c[i + h], three), spec_line(d[i], d[i + h], three)))
        =~= Seq::new(h as nat, |i: int| F::spec_mul(e[i], g[i])));
    assert(t.2 == spec_eval_quadratic(q, three));
    lemma_quadratic_from_evals_recovers(q);
    // at r
    lemma_round_quadratic_eval(c, d, h, h as nat, r);
    let fc = spec_fold_once(c, r);
    let fd = spec_fold_once(d, r);
    assert(Seq::new(h as nat, |i: int| F::spec_mul(spec_line(c[i], c[i + h], r), spec_line(d[i], d[i + h], r)))
        =~= Seq::new(h as nat, |i: int| F::spec_mul(fc[i], fd[i])));
    // t.0 + t.1 == inner(c, d)
    let s0 = Seq::new(h as nat, |i: int| F::spec_mul(c0[i], d0[i]));
    let s1 = Seq::new(h as nat, |i: int| F::spec_mul(c1[i], d1[i]));
    assert(Seq::new(c.len(), |i: int| F::spec_mul(c[i], d[i])) =~= s0 + s1);
    lemma_sum_concat(s0, s1);
}

proof fn lemma_double_rounds_honest<F: BinaryField>(
    f: Seq<F>,
    g: Seq<F>,
    n: nat,
    ris: Seq<F>,
    tr: Seq<(F, F, F)>,
    k: nat,
)
    requires
        f.len() == pow2(n),
        g.len() == pow2(n),
        ris.len() == n,
        tr.len() == n,
        k <= n,
        forall|i: int|
            0 <= i < n ==> #[trigger] tr[i] == spec_eval_013_product(
                spec_partial_eval(f, ris.subrange(0, i)),
                spec_partial_eval(g, ris.subrange(0, i)),
            ),
    ensures
        spec_double_sumcheck_rounds(tr, ris, spec_inner(f, g), k) == Some(
            spec_inner(spec_partial_eval(f, ris.subrange(0, k as int)), spec_partial_eval(g, ris.subrange(0, k as int))),
        ),
    decreases k,
{
    if k == 0 {
        assert(ris.subrange(0, 0) =~= Seq::<F>::empty());
    } else {
        let j = (k - 1) as nat;
        lemma_double_rounds_honest(f, g, n, ris, tr, j);
        let pre = ris.subrange(0, j as int);
        let c = spec_partial_eval(f, pre);
        let d = spec_partial_eval(g, pre);
        lemma_partial_eval_len(f, pre, n);
        lemma_partial_eval_len(g, pre, n);
        lemma_pow2_unfold((n - j) as nat);
        lemma_pow2_pos((n - j - 1) as nat);
        assert(tr[j as int] == spec_eval_013_product(c, d));
        lemma_double_round(c, d, ris[j as int]);
        lemma_three_is_valid::<F>();
        lemma_partial_eval_snoc(f, pre, ris[j as int]);
        lemma_partial_eval_snoc(g, pre, ris[j as int]);
        assert(pre.push(ris[j as int]) =~= ris.subrange(0, k as int));
    }
}

/// Completeness of the product sumcheck: on the transcript that
/// `double_sumcheck_prover` sends for `f` and `g` and challenges `ris`, every
/// round of the verifier passes from the claimed sum `sum f[i] g[i]`, and the
/// final claim is the product of the sums of `f` and `g` with all their
/// variables fixed, so `double_sumcheck_verifier` accepts.
pub proof fn lemma_double_sumcheck_complete<F: BinaryField>(
    f: Seq<F>,
    g: Seq<F>,
    n: nat,
    ris: Seq<F>,
    tr: Seq<(F, F, F)>,
)
    requires
        f.len() == pow2(n),
        g.len() == pow2(n),
        ris.len() == n,
        tr.len() == n,
        forall|i: int|
            0 <= i < n ==> #[trigger] tr[i] == spec_eval_013_product(
                spec_partial_eval(f, ris.subrange(0, i)),
                spec_partial_eval(g, ris.subrange(0, i)),
            ),
    ensures
        spec_double_sumcheck_rounds(tr, ris, spec_inner(f, g), n) == Some(
            F::spec_mul(spec_sum(spec_partial_eval(f, ris)), spec_sum(spec_partial_eval(g, ris))),
        ),
{
    lemma_double_rounds_honest(f, g, n, ris, tr, n);
    assert(ris.subrange(0, n as int) =~= ris);
    lemma_partial_eval_len(f, ris, n);
    lemma_partial_eval_len(g, ris, n);
    lemma2_to64();
    let c = spec_partial_eval(f, ris);
    let d = spec_partial_eval(g, ris);
    assert(c.drop_last() =~= Seq::<F>::empty());
    assert(d.drop_last() =~= Seq::<F>::empty());
    F::lemma_add_zero(c[0]);
    F::lemma_add_zero(d[0]);
    assert(c.len() == 1);
    assert(d.len() == 1);
    assert(spec_sum(Seq::<F>::empty()) == F::spec_zero());
    assert(spec_sum(c) == c[0]);
    assert(spec_sum(d) == d[0]);
    let p = Seq::new(1, |i: int| F::spec_mul(c[i], d[i]));
    assert(p.drop_last() =~= Seq::<F>::empty());
    F::lemma_add_zero(F::spec_mul(c[0], d[0]));
    assert(spec_sum(p) == F::spec_mul(c[0], d[0]));
    assert(spec_inner(c, d) == spec_sum(p));
}

/// `x (y a) == a (x y)`.
proof fn lemma_mul_scaled<F: BinaryField>(x: F, y: F, a: F)
    ensures
        F::spec_mul(x, F::spec_mul(y, a)) == F::spec_mul(a, F::spec_mul(x, y)),
{
    F::lemma_mul_assoc(x, y, a);
    F::lemma_mul_comm(F::spec_mul(x, y), a);
}

/// The line product is linear in the second line: replacing `v` by
/// `v + w alpha` adds `alpha` times the product with `w`.
proof fn lemma_line_product_lin<F: BinaryField>(u0: F, u1: F, v0: F, v1: F, w0: F, w1: F, alpha: F)
    ensures
        spec_line_product(
            u0,
            u1,
            F::spec_add(v0, F::spec_mul(w0, alpha)),
            F::spec_add(v1, F::spec_mul(w1, alpha)),
        ) == spec_fold_quadratic(spec_line_product(u0, u1, v0, v1), spec_line_product(u0, u1, w0, w1), alpha),
{
    let du = F::spec_add(u0, u1);
    let dv = F::spec_add(v0, v1);
    let dw = F::spec_add(w0, w1);
    let a0 = F::spec_mul(w0, alpha);
    let a1 = F::spec_mul(w1, alpha);
    let v0p = F::spec_add(v0, a0);
    let dwa = F::spec_mul(dw, alpha);
    // dv' == dv + dw alpha
    lemma_add_swap_mid(v0, a0, v1, a1);
    F::lemma_mul_distrib(alpha, w0, w1);
    F::lemma_mul_comm(w0, alpha);
    F::lemma_mul_comm(w1, alpha);
    F::lemma_mul_comm(dw, alpha);
    let dvp = F::spec_add(dv, dwa);
    assert(F::spec_add(v0p, F::spec_add(v1, a1)) == dvp);
    // a
    F::lemma_mul_distrib(du, dv, dwa);
    lemma_mul_scaled(du, dw, alpha);
    // b
    F::lemma_mul_distrib(u0, dv, dwa);
    lemma_mul_scaled(u0, dw, alpha);
    F::lemma_mul_distrib(du, v0, a0);
    lemma_mul_scaled(du, w0, alpha);
    lemma_add_swap_mid(
        F::spec_mul(u0, dv),
        F::spec_mul(alpha, F::spec_mul(u0, dw)),
        F::spec_mul(du, v0),
        F::spec_mul(alpha, F::spec_mul(du, w0)),
    );
    F::lemma_mul_distrib(alpha, F::spec_mul(u0, dw), F::spec_mul(du, w0));
    // c
    F::lemma_mul_distrib(u0, v0, a0);
    lemma_mul_scaled(u0, w0, alpha);
}

/// `(p + q) + alpha (p2 + q2) == (p + alpha p2) + (q + alpha q2)`.
proof fn lemma_fold_quadratic_add<F: BinaryField>(
    p: QuadraticPoly<F>,
    q: QuadraticPoly<F>,
    p2: QuadraticPoly<F>,
    q2: QuadraticPoly<F>,
    alpha: F,
)
    ensures
        spec_fold_quadratic(spec_quadratic_add(p, q), spec_quadratic_add(p2, q2), alpha) == spec_quadratic_add(
            spec_fold_quadratic(p, p2, alpha),
            spec_fold_quadratic(q, q2, alpha),
        ),
{
    F::lemma_mul_distrib(alpha, p2.a, q2.a);
    F::lemma_mul_distrib(alpha, p2.b, q2.b);
    F::lemma_mul_distrib(alpha, p2.c, q2.c);
    lemma_add_swap_mid(p.a, q.a, F::spec_mul(alpha, p2.a), F::spec_mul(alpha, q2.a));
    lemma_add_swap_mid(p.b, q.b, F::spec_mul(alpha, p2.b), F::spec_mul(alpha, q2.b));
    lemma_add_swap_mid(p.c, q.c, F::spec_mul(alpha, p2.c), F::spec_mul(alpha, q2.c));
}

/// The round polynomial is linear in the second sequence: for
/// `dl = d + e alpha` (entrywise) it is the round polynomial of `d` plus
/// `alpha` times that of `e`.
pub proof fn lemma_round_quadratic_lin<F: BinaryField>(c: Seq<F>, d: Seq<F>, e: Seq<F>, alpha: F, h: int, m: nat)
    requires
        d.len() == e.len(),
        0 <= h,
        m <= h,
        2 * h <= d.len(),
    ensures
        spec_round_quadratic(c, Seq::new(d.len(), |i: int| F::spec_add(d[i], F::spec_mul(e[i], alpha))), h, m)
            == spec_fold_quadratic(spec_round_quadratic(c, d, h, m), spec_round_quadratic(c, e, h, m), alpha),
    decreases m,
{
    let dl = Seq::new(d.len(), |i: int| F::spec_add(d[i], F::spec_mul(e[i], alpha)));
    if m == 0 {
        let z = F::spec_zero();
        F::lemma_mul_zero(alpha);
        F::lemma_add_zero(z);
    } else {
        let k = (m - 1) as nat;
        lemma_round_quadratic_lin(c, d, e, alpha, h, k);
        lemma_line_product_lin(c[k as int], c[k + h], d[k as int], d[k + h], e[k as int], e[k + h], alpha);
        lemma_fold_quadratic_add(
            spec_round_quadratic(c, d, h, k),
            spec_line_product(c[k as int], c[k + h], d[k as int], d[k + h]),
            spec_round_quadratic(c, e, h, k),
            spec_line_product(c[k as int], c[k + h], e[k as int], e[k + h]),
            alpha,
        );
    }
}

} // verus!
