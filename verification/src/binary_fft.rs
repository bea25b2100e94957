//! The additive FFT over binary fields in the novel polynomial basis, and the
//! subspace-polynomial evaluations it is built from.
use crate::binary_field::BinaryField;
use vstd::arithmetic::power2::*;
use vstd::prelude::*;

verus! {

// ---------------------------------------------------------------------------
// Powers of two
// ---------------------------------------------------------------------------

/// `n` is a power of two.
pub open spec fn is_pow2(n: nat) -> bool
    decreases n,
{
    if n == 0 {
        false
    } else if n == 1 {
        true
    } else {
        n % 2 == 0 && is_pow2(n / 2)
    }
}

/// The floor of the base-2 logarithm (0 for 0 and 1).
pub open spec fn log2(n: nat) -> nat
    decreases n,
{
    if n <= 1 {
        0
    } else {
        1 + log2(n / 2)
    }
}

pub proof fn lemma_pow2_is_pow2(k: nat)
    ensures
        is_pow2(pow2(k)),
        log2(pow2(k)) == k,
    decreases k,
{
    lemma_pow2_unfold_all(k);
    if k > 0 {
        lemma_pow2_is_pow2((k - 1) as nat);
        lemma_pow2_pos((k - 1) as nat);
        assert(pow2(k) / 2 == pow2((k - 1) as nat));
    }
}

proof fn lemma_pow2_unfold_all(k: nat)
    ensures
        k == 0 ==> pow2(k) == 1,
        k > 0 ==> pow2(k) == 2 * pow2((k - 1) as nat),
{
    lemma2_to64();
    if k > 0 {
        lemma_pow2_unfold(k);
    }
}

pub proof fn lemma_is_pow2_log2(n: nat)
    requires
        is_pow2(n),
    ensures
        n == pow2(log2(n)),
        n >= 1,
    decreases n,
{
    lemma2_to64();
    if n > 1 {
        lemma_is_pow2_log2(n / 2);
        lemma_pow2_unfold(log2(n));
    }
}

/// For `t < 2^k`, the highest bit of `2^k + t` is `k`.
pub proof fn lemma_log2_of_sum(k: nat, t: nat)
    requires
        t < pow2(k),
    ensures
        log2(pow2(k) + t) == k,
    decreases k,
{
    lemma_pow2_unfold_all(k);
    if k > 0 {
        lemma_pow2_pos((k - 1) as nat);
        assert((pow2(k) + t) / 2 == pow2((k - 1) as nat) + t / 2);
        lemma_log2_of_sum((k - 1) as nat, t / 2);
    }
}

/// `log2` is monotone and `pow2(log2(n)) <= n < pow2(log2(n) + 1)`.
pub proof fn lemma_log2_bounds(n: nat)
    requires
        n >= 1,
    ensures
        pow2(log2(n)) <= n < pow2(log2(n) + 1),
    decreases n,
{
    lemma2_to64();
    if n > 1 {
        lemma_log2_bounds(n / 2);
        lemma_pow2_unfold(log2(n));
        lemma_pow2_unfold(log2(n) + 1);
    }
}

/// `pow2` is monotone.
pub proof fn lemma_pow2_le(a: nat, b: nat)
    requires
        a <= b,
    ensures
        pow2(a) <= pow2(b),
{
    if a < b {
        lemma_pow2_strictly_increases(a, b);
    }
}

/// A power of two that fits in a `usize` has an exponent below 64.
pub proof fn lemma_pow2_fits(k: nat)
    requires
        pow2(k) <= usize::MAX,
    ensures
        k < 64,
{
    lemma2_to64_rest();
    if k >= 64 {
        if k > 64 {
            lemma_pow2_strictly_increases(64, k);
        }
    }
}

/// The logarithm of a `usize` is below 64.
pub proof fn lemma_log2_fits(n: nat)
    requires
        1 <= n <= usize::MAX,
    ensures
        log2(n) < 64,
{
    lemma_log2_bounds(n);
    lemma_pow2_fits(log2(n));
}

/// The bit facts behind the power-of-two test.
proof fn lemma_usize_low_bits(x: usize)
    by (bit_vector)
    ensures
        x > 1 && x % 2 == 0 ==> ((x & ((x - 1) as usize)) == 0 <==> ((x >> 1) & (((x >> 1) - 1) as usize)) == 0),
        x >> 1 == x / 2,
        x > 1 && x % 2 == 1 ==> (x & ((x - 1) as usize)) != 0,
        x == 1 ==> (x & ((x - 1) as usize)) == 0,
{
}

proof fn lemma_pow2_is_pow2_usize_bits(x: usize)
    ensures
        x != 0 ==> ((x & ((x - 1) as usize)) == 0 <==> is_pow2(x as nat)),
    decreases x,
{
    lemma_usize_low_bits(x);
    if x > 1 {
        if x % 2 == 0 {
            lemma_pow2_is_pow2_usize_bits(x / 2);
        }
    }
}

/// Whether `n` is a power of two.
pub fn is_power_of_2(n: usize) -> (r: bool)
    ensures
        r == is_pow2(n as nat),
{
    proof {
        lemma_pow2_is_pow2_usize_bits(n);
    }
    n != 0 && (n & (n - 1)) == 0
}

/// `2^k` as a `usize`.
pub fn pow2_usize(k: usize) -> (r: usize)
    requires
        pow2(k as nat) <= usize::MAX,
    ensures
        r == pow2(k as nat),
{
    let mut r: usize = 1;
    let mut i: usize = 0;
    proof {
        lemma2_to64();
    }
    while i < k
        invariant
            i <= k,
            r == pow2(i as nat),
            pow2(k as nat) <= usize::MAX,
        decreases k - i,
    {
        proof {
            lemma_pow2_unfold((i + 1) as nat);
            if i + 1 < k {
                lemma_pow2_strictly_increases((i + 1) as nat, k as nat);
            }
        }
        r = r * 2;
        i = i + 1;
    }
    r
}

/// The floor of the base-2 logarithm of a positive `n`.
pub fn ilog2(n: usize) -> (r: usize)
    requires
        n >= 1,
    ensures
        r == log2(n as nat),
{
    let mut m = n;
    let mut r: usize = 0;
    while m > 1
        invariant
            m >= 1,
            r + log2(m as nat) == log2(n as nat),
            r <= n,
            m <= n,
            r + m <= n + 1,
        decreases m,
    {
        m = m / 2;
        r = r + 1;
    }
    r
}

// ---------------------------------------------------------------------------
// Butterflies and the recursive transforms
// ---------------------------------------------------------------------------

/// One forward butterfly layer on `s`: with `u, w` the halves,
/// `u' = u + lambda * w` and `w' = w + u'`.
pub open spec fn spec_fft_mul<F: BinaryField>(s: Seq<F>, lambda: F) -> Seq<F> {
    let h = s.len() / 2;
    Seq::new(
        s.len(),
        |k: int|
            if k < h {
                F::spec_add(s[k], F::spec_mul(lambda, s[k + h]))
            } else {
                F::spec_add(s[k], F::spec_add(s[k - h], F::spec_mul(lambda, s[k])))
            },
    )
}

/// One inverse butterfly layer on `s`: `w' = w + u` and `u' = u + lambda * w'`.
pub open spec fn spec_ifft_mul<F: BinaryField>(s: Seq<F>, lambda: F) -> Seq<F> {
    let h = s.len() / 2;
    Seq::new(
        s.len(),
        |k: int|
            if k < h {
                F::spec_add(s[k], F::spec_mul(lambda, F::spec_add(s[k + h], s[k])))
            } else {
                F::spec_add(s[k], s[k - h])
            },
    )
}

/// The forward additive FFT of `s` with the twiddle tree `tw` rooted at
/// (1-based) node `idx`: a butterfly with `tw[idx - 1]`, then the transforms of
/// the two halves at the children `2 idx` and `2 idx + 1`.
pub open spec fn spec_fft<F: BinaryField>(s: Seq<F>, tw: Seq<F>, idx: int) -> Seq<F>
    decreases s.len(),
{
    if s.len() <= 1 {
        s
    } else {
        let t = spec_fft_mul(s, tw[idx - 1]);
        let h = (s.len() / 2) as int;
        spec_fft(t.subrange(0, h), tw, 2 * idx) + spec_fft(
            t.subrange(h, s.len() as int),
            tw,
            2 * idx + 1,
        )
    }
}

/// The inverse additive FFT: transform the halves, then an inverse butterfly.
pub open spec fn spec_ifft<F: BinaryField>(s: Seq<F>, tw: Seq<F>, idx: int) -> Seq<F>
    decreases s.len(),
{
    if s.len() <= 1 {
        s
    } else {
        let h = (s.len() / 2) as int;
        let t = spec_ifft(s.subrange(0, h), tw, 2 * idx) + spec_ifft(
            s.subrange(h, s.len() as int),
            tw,
            2 * idx + 1,
        );
        spec_ifft_mul(t, tw[idx - 1])
    }
}

pub proof fn lemma_fft_len<F: BinaryField>(s: Seq<F>, tw: Seq<F>, idx: int)
    ensures
        spec_fft(s, tw, idx).len() == s.len(),
        spec_ifft(s, tw, idx).len() == s.len(),
    decreases s.len(),
{
    if s.len() > 1 {
        let h = (s.len() / 2) as int;
        let t = spec_fft_mul(s, tw[idx - 1]);
        lemma_fft_len(t.subrange(0, h), tw, 2 * idx);
        lemma_fft_len(t.subrange(h, s.len() as int), tw, 2 * idx + 1);
        lemma_fft_len(s.subrange(0, h), tw, 2 * idx);
        lemma_fft_len(s.subrange(h, s.len() as int), tw, 2 * idx + 1);
    }
}

proof fn lemma_ifft_mul_undoes_fft_mul<F: BinaryField>(s: Seq<F>, lambda: F)
    requires
        s.len() % 2 == 0,
    ensures
        spec_ifft_mul(spec_fft_mul(s, lambda), lambda) == s,
{
    let t = spec_fft_mul(s, lambda);
    let r = spec_ifft_mul(t, lambda);
    let h = s.len() / 2;
    assert forall|k: int| 0 <= k < s.len() implies r[k] == s[k] by {
        if k < h {
            let u = s[k];
            let w = s[k + h];
            let lw = F::spec_mul(lambda, w);
            // t[k] = u + lw, t[k + h] = w + (u + lw)
            // w' = t[k + h] + t[k] = w
            F::lemma_add_assoc(w, F::spec_add(u, lw), F::spec_add(u, lw));
            F::lemma_add_self(F::spec_add(u, lw));
            F::lemma_add_zero(w);
            // u' = t[k] + lambda * w = u + lw + lw = u
            F::lemma_add_assoc(u, lw, lw);
            F::lemma_add_self(lw);
            F::lemma_add_zero(u);
        } else {
            let u = s[k - h];
            let w = s[k];
            let lw = F::spec_mul(lambda, w);
            // t[k] = w + (u + lw); t[k - h] = u + lw; w' = t[k] + t[k - h] = w
            F::lemma_add_assoc(w, F::spec_add(u, lw), F::spec_add(u, lw));
            F::lemma_add_self(F::spec_add(u, lw));
            F::lemma_add_zero(w);
        }
    }
    assert(r =~= s);
}

/// The inverse transform undoes the forward transform, for every input of
/// power-of-two length and every twiddle tree.
pub proof fn lemma_ifft_undoes_fft<F: BinaryField>(s: Seq<F>, tw: Seq<F>, idx: int)
    requires
        is_pow2(s.len()),
    ensures
        spec_ifft(spec_fft(s, tw, idx), tw, idx) == s,
    decreases s.len(),
{
    if s.len() > 1 {
        let n = s.len() as int;
        let h = n / 2;
        let t = spec_fft_mul(s, tw[idx - 1]);
        let a = t.subrange(0, h);
        let b = t.subrange(h, n);
        let fa = spec_fft(a, tw, 2 * idx);
        let fb = spec_fft(b, tw, 2 * idx + 1);
        let f = fa + fb;
        lemma_fft_len(a, tw, 2 * idx);
        lemma_fft_len(b, tw, 2 * idx + 1);
        lemma_ifft_undoes_fft(a, tw, 2 * idx);
        lemma_ifft_undoes_fft(b, tw, 2 * idx + 1);
        assert(f.subrange(0, h) =~= fa);
        assert(f.subrange(h, n) =~= fb);
        assert(spec_ifft(fa, tw, 2 * idx) + spec_ifft(fb, tw, 2 * idx + 1) =~= t);
        lemma_ifft_mul_undoes_fft_mul(s, tw[idx - 1]);
    }
}

proof fn lemma_fft_mul_undoes_ifft_mul<F: BinaryField>(s: Seq<F>, lambda: F)
    requires
        s.len() % 2 == 0,
    ensures
        spec_fft_mul(spec_ifft_mul(s, lambda), lambda) == s,
{
    let t = spec_ifft_mul(s, lambda);
    let r = spec_fft_mul(t, lambda);
    let h = s.len() / 2;
    assert forall|k: int| 0 <= k < s.len() implies r[k] == s[k] by {
        if k < h {
            let u = s[k];
            let w = s[k + h];
            let lv = F::spec_mul(lambda, F::spec_add(w, u));
            // t[k] = u + lv, t[k + h] = w + u, r[k] = t[k] + lv = u
            F::lemma_add_assoc(u, lv, lv);
            F::lemma_add_self(lv);
            F::lemma_add_zero(u);
        } else {
            let u = s[k - h];
            let w = s[k];
            let lv = F::spec_mul(lambda, F::spec_add(w, u));
            // t[k] = w + u, t[k - h] = u + lv, r[k] = (w + u) + ((u + lv) + lv) = w
            F::lemma_add_assoc(u, lv, lv);
            F::lemma_add_self(lv);
            F::lemma_add_zero(u);
            F::lemma_add_assoc(w, u, u);
            F::lemma_add_self(u);
            F::lemma_add_zero(w);
        }
    }
    assert(r =~= s);
}

/// The forward transform undoes the inverse transform, for every input of
/// power-of-two length and every twiddle tree.
pub proof fn lemma_fft_undoes_ifft<F: BinaryField>(s: Seq<F>, tw: Seq<F>, idx: int)
    requires
        is_pow2(s.len()),
    ensures
        spec_fft(spec_ifft(s, tw, idx), tw, idx) == s,
    decreases s.len(),
{
    if s.len() > 1 {
        let n = s.len() as int;
        let h = n / 2;
        let a = s.subrange(0, h);
        let b = s.subrange(h, n);
        let ia = spec_ifft(a, tw, 2 * idx);
        let ib = spec_ifft(b, tw, 2 * idx + 1);
        let c = ia + ib;
        lemma_fft_len(a, tw, 2 * idx);
        lemma_fft_len(b, tw, 2 * idx + 1);
        lemma_fft_undoes_ifft(a, tw, 2 * idx);
        lemma_fft_undoes_ifft(b, tw, 2 * idx + 1);
        lemma_fft_mul_undoes_ifft_mul(c, tw[idx - 1]);
        assert(c.subrange(0, h) =~= ia);
        assert(c.subrange(h, n) =~= ib);
        assert(spec_fft(ia, tw, 2 * idx) + spec_fft(ib, tw, 2 * idx + 1) =~= s);
    }
}

/// `a + l b`, entry by entry.
pub open spec fn spec_lin<F: BinaryField>(a: Seq<F>, b: Seq<F>, l: F) -> Seq<F> {
    Seq::new(a.len(), |i: int| F::spec_add(a[i], F::spec_mul(l, b[i])))
}

/// `(a1 + l b1) + (a2 + l b2) == (a1 + a2) + l (b1 + b2)`.
proof fn lemma_lin_add<F: BinaryField>(a1: F, b1: F, a2: F, b2: F, l: F)
    ensures
        F::spec_add(F::spec_add(a1, F::spec_mul(l, b1)), F::spec_add(a2, F::spec_mul(l, b2))) == F::spec_add(
            F::spec_add(a1, a2),
            F::spec_mul(l, F::spec_add(b1, b2)),
        ),
{
    let x = F::spec_mul(l, b1);
    let y = F::spec_mul(l, b2);
    F::lemma_mul_distrib(l, b1, b2);
    F::lemma_add_assoc(F::spec_add(a1, x), a2, y);
    F::lemma_add_assoc(a1, x, a2);
    F::lemma_add_comm(x, a2);
    F::lemma_add_assoc(a1, a2, x);
    F::lemma_add_assoc(F::spec_add(a1, a2), x, y);
}

/// `lambda (a + l b) == lambda a + l (lambda b)`.
proof fn lemma_lin_scale<F: BinaryField>(a: F, b: F, l: F, lambda: F)
    ensures
        F::spec_mul(lambda, F::spec_add(a, F::spec_mul(l, b))) == F::spec_add(
            F::spec_mul(lambda, a),
            F::spec_mul(l, F::spec_mul(lambda, b)),
        ),
{
    F::lemma_mul_distrib(lambda, a, F::spec_mul(l, b));
    F::lemma_mul_assoc(lambda, l, b);
    F::lemma_mul_comm(lambda, l);
    F::lemma_mul_assoc(l, lambda, b);
}

/// A butterfly layer is linear.
proof fn lemma_fft_mul_linear<F: BinaryField>(a: Seq<F>, b: Seq<F>, l: F, lambda: F)
    requires
        a.len() == b.len(),
    ensures
        spec_fft_mul(spec_lin(a, b, l), lambda) == spec_lin(spec_fft_mul(a, lambda), spec_fft_mul(b, lambda), l),
{
    let s = spec_lin(a, b, l);
    let h = a.len() / 2;
    let lhs = spec_fft_mul(s, lambda);
    let rhs = spec_lin(spec_fft_mul(a, lambda), spec_fft_mul(b, lambda), l);
    assert forall|k: int| 0 <= k < a.len() implies lhs[k] == rhs[k] by {
        if k < h {
            lemma_lin_scale(a[k + h], b[k + h], l, lambda);
            lemma_lin_add(a[k], b[k], F::spec_mul(lambda, a[k + h]), F::spec_mul(lambda, b[k + h]), l);
        } else {
            lemma_lin_scale(a[k], b[k], l, lambda);
            lemma_lin_add(a[k - h], b[k - h], F::spec_mul(lambda, a[k]), F::spec_mul(lambda, b[k]), l);
            lemma_lin_add(
                a[k],
                b[k],
                F::spec_add(a[k - h], F::spec_mul(lambda, a[k])),
                F::spec_add(b[k - h], F::spec_mul(lambda, b[k])),
                l,
            );
        }
    }
    assert(lhs =~= rhs);
}

/// The forward transform is linear: the transform of `a + l b` is the
/// transform of `a` plus `l` times the transform of `b`.
pub proof fn lemma_fft_linear<F: BinaryField>(a: Seq<F>, b: Seq<F>, l: F, tw: Seq<F>, idx: int)
    requires
        a.len() == b.len(),
    ensures
        spec_fft(spec_lin(a, b, l), tw, idx) == spec_lin(spec_fft(a, tw, idx), spec_fft(b, tw, idx), l),
    decreases a.len(),
{
    let s = spec_lin(a, b, l);
    lemma_fft_len(a, tw, idx);
    lemma_fft_len(b, tw, idx);
    lemma_fft_len(s, tw, idx);
    if a.len() <= 1 {
        assert(spec_fft(s, tw, idx) =~= spec_lin(spec_fft(a, tw, idx), spec_fft(b, tw, idx), l));
    } else {
        let n = a.len() as int;
        let h = n / 2;
        let lambda = tw[idx - 1];
        let ta = spec_fft_mul(a, lambda);
        let tb = spec_fft_mul(b, lambda);
        lemma_fft_mul_linear(a, b, l, lambda);
        let ts = spec_fft_mul(s, lambda);
        assert(ts.subrange(0, h) =~= spec_lin(ta.subrange(0, h), tb.subrange(0, h), l));
        assert(ts.subrange(h, n) =~= spec_lin(ta.subrange(h, n), tb.subrange(h, n), l));
        lemma_fft_linear(ta.subrange(0, h), tb.subrange(0, h), l, tw, 2 * idx);
        lemma_fft_linear(ta.subrange(h, n), tb.subrange(h, n), l, tw, 2 * idx + 1);
        lemma_fft_len(ta.subrange(0, h), tw, 2 * idx);
        lemma_fft_len(tb.subrange(0, h), tw, 2 * idx);
        lemma_fft_len(ta.subrange(h, n), tw, 2 * idx + 1);
        lemma_fft_len(tb.subrange(h, n), tw, 2 * idx + 1);
        assert(spec_fft(s, tw, idx) =~= spec_lin(spec_fft(a, tw, idx), spec_fft(b, tw, idx), l));
    }
}

/// Node `j` of depth `d` below node `idx` of a twiddle tree.
pub open spec fn tw_node<F>(tw: Seq<F>, idx: int, d: nat, j: int) -> F {
    tw[idx * pow2(d) + j - 1]
}

/// The subtrees of depth `k` below node `idx1` of `tw1` and node `idx2` of
/// `tw2` hold the same twiddles.
pub open spec fn same_subtree<F>(tw1: Seq<F>, idx1: int, tw2: Seq<F>, idx2: int, k: nat) -> bool {
    forall|d: nat, j: int|
        d < k && 0 <= j < pow2(d) ==> #[trigger] tw_node(tw1, idx1, d, j) == tw_node(tw2, idx2, d, j)
}

/// The transform of an input of length `2^k` reads only the `k` levels of the
/// twiddle tree below its root node.
pub proof fn lemma_fft_relocate<F: BinaryField>(
    s: Seq<F>,
    tw1: Seq<F>,
    idx1: int,
    tw2: Seq<F>,
    idx2: int,
    k: nat,
)
    requires
        s.len() == pow2(k),
        same_subtree(tw1, idx1, tw2, idx2, k),
    ensures
        spec_fft(s, tw1, idx1) == spec_fft(s, tw2, idx2),
    decreases k,
{
    lemma_pow2_unfold_all(k);
    if k > 0 {
        lemma_pow2_unfold_all(0);
        assert(tw_node(tw1, idx1, 0, 0) == tw_node(tw2, idx2, 0, 0));
        assert(tw1[idx1 - 1] == tw2[idx2 - 1]);
        let n = s.len() as int;
        let h = n / 2;
        let t = spec_fft_mul(s, tw1[idx1 - 1]);
        assert forall|d: nat, j: int| d < k - 1 && 0 <= j < pow2(d) implies #[trigger] tw_node(
            tw1,
            2 * idx1,
            d,
            j,
        ) == tw_node(tw2, 2 * idx2, d, j) by {
            lemma_pow2_unfold_all(d + 1);
            assert((2 * idx1) * pow2(d) == idx1 * pow2(d + 1)) by (nonlinear_arith)
                requires
                    pow2(d + 1) == 2 * pow2(d),
            ;
            assert((2 * idx2) * pow2(d) == idx2 * pow2(d + 1)) by (nonlinear_arith)
                requires
                    pow2(d + 1) == 2 * pow2(d),
            ;
            assert(tw_node(tw1, idx1, d + 1, j) == tw_node(tw2, idx2, d + 1, j));
        }
        assert forall|d: nat, j: int| d < k - 1 && 0 <= j < pow2(d) implies #[trigger] tw_node(
            tw1,
            2 * idx1 + 1,
            d,
            j,
        ) == tw_node(tw2, 2 * idx2 + 1, d, j) by {
            lemma_pow2_unfold_all(d + 1);
            assert((2 * idx1 + 1) * pow2(d) == idx1 * pow2(d + 1) + pow2(d)) by (nonlinear_arith)
                requires
                    pow2(d + 1) == 2 * pow2(d),
            ;
            assert((2 * idx2 + 1) * pow2(d) == idx2 * pow2(d + 1) + pow2(d)) by (nonlinear_arith)
                requires
                    pow2(d + 1) == 2 * pow2(d),
            ;
            assert(tw_node(tw1, idx1, d + 1, pow2(d) + j) == tw_node(tw2, idx2, d + 1, pow2(d) + j));
        }
        lemma_fft_relocate(t.subrange(0, h), tw1, 2 * idx1, tw2, 2 * idx2, (k - 1) as nat);
        lemma_fft_relocate(t.subrange(h, n), tw1, 2 * idx1 + 1, tw2, 2 * idx2 + 1, (k - 1) as nat);
    }
}

// ---------------------------------------------------------------------------
// Executable transforms
// ---------------------------------------------------------------------------

/// `v` with the segment `[start, start + len)` replaced by `seg`.
pub open spec fn splice<F>(v: Seq<F>, start: int, len: int, seg: Seq<F>) -> Seq<F> {
    v.subrange(0, start) + seg + v.subrange(start + len, v.len() as int)
}

/// The twiddle tree has room for the node `idx` of a segment of length `len`.
pub open spec fn twiddles_fit(len: nat, idx: nat, tw_len: nat) -> bool {
    &&& idx >= 1
    &&& (idx + 1) * len <= 2 * tw_len + 2
    &&& tw_len < usize::MAX / 2
}

/// One forward butterfly layer on `v[start .. start + len]`.
pub fn fft_mul_range<F: BinaryField>(v: &mut Vec<F>, start: usize, len: usize, lambda: F)
    requires
        start + len <= old(v).len(),
        len % 2 == 0,
    ensures
        final(v)@ == splice(
            old(v)@,
            start as int,
            len as int,
            spec_fft_mul(old(v)@.subrange(start as int, start + len), lambda),
        ),
{
    let ghost s = old(v)@.subrange(start as int, start + len);
    let ghost target = spec_fft_mul(s, lambda);
    let h = len / 2;
    let mut i: usize = 0;
    while i < h
        invariant
            h == len / 2,
            len % 2 == 0,
            i <= h,
            start + len <= v.len(),
            v.len() == old(v).len(),
            s == old(v)@.subrange(start as int, start + len),
            target == spec_fft_mul(s, lambda),
            forall|k: int|
                0 <= k < start || start + len <= k < v.len() ==> v@[k] == old(v)@[k],
            forall|m: int|
                start <= m < start + h ==> #[trigger] v@[m] == if m - start < i {
                    target[m - start]
                } else {
                    s[m - start]
                },
            forall|m: int|
                start + h <= m < start + len ==> #[trigger] v@[m] == if m - start - h < i {
                    target[m - start]
                } else {
                    s[m - start]
                },
        decreases h - i,
    {
        let u = v[start + i];
        let w = v[start + h + i];
        let u2 = u.add(lambda.mul(w));
        let w2 = w.add(u2);
        v.set(start + i, u2);
        v.set(start + h + i, w2);
        i = i + 1;
    }
    assert(v@ =~= splice(old(v)@, start as int, len as int, target)) by {
        assert forall|k: int| start <= k < start + len implies v@[k] == target[k - start] by {
        }
    }
}

/// One inverse butterfly layer on `v[start .. start + len]`.
pub fn ifft_mul_range<F: BinaryField>(v: &mut Vec<F>, start: usize, len: usize, lambda: F)
    requires
        start + len <= old(v).len(),
        len % 2 == 0,
    ensures
        final(v)@ == splice(
            old(v)@,
            start as int,
            len as int,
            spec_ifft_mul(old(v)@.subrange(start as int, start + len), lambda),
        ),
{
    let ghost s = old(v)@.subrange(start as int, start + len);
    let ghost target = spec_ifft_mul(s, lambda);
    let h = len / 2;
    let mut i: usize = 0;
    while i < h
        invariant
            h == len / 2,
            len % 2 == 0,
            i <= h,
            start + len <= v.len(),
            v.len() == old(v).len(),
            s == old(v)@.subrange(start as int, start + len),
            target == spec_ifft_mul(s, lambda),
            forall|k: int|
                0 <= k < start || start + len <= k < v.len() ==> v@[k] == old(v)@[k],
            forall|m: int|
                start <= m < start + h ==> #[trigger] v@[m] == if m - start < i {
                    target[m - start]
                } else {
                    s[m - start]
                },
            forall|m: int|
                start + h <= m < start + len ==> #[trigger] v@[m] == if m - start - h < i {
                    target[m - start]
                } else {
                    s[m - start]
                },
        decreases h - i,
    {
        let u = v[start + i];
        let w = v[start + h + i];
        let w2 = w.add(u);
        let u2 = u.add(lambda.mul(w2));
        v.set(start + i, u2);
        v.set(start + h + i, w2);
        i = i + 1;
    }
    assert(v@ =~= splice(old(v)@, start as int, len as int, target)) by {
        assert forall|k: int| start <= k < start + len implies v@[k] == target[k - start] by {
        }
    }
}

proof fn lemma_twiddles_fit_children(len: nat, idx: nat, tw_len: nat)
    requires
        twiddles_fit(len, idx, tw_len),
        len >= 2,
        len % 2 == 0,
    ensures
        idx <= tw_len,
        twiddles_fit(len / 2, 2 * idx, tw_len),
        twiddles_fit(len / 2, 2 * idx + 1, tw_len),
{
    let h = len / 2;
    assert(len == 2 * h);
    assert((idx + 1) * len == (2 * idx + 2) * h) by (nonlinear_arith)
        requires
            len == 2 * h,
    ;
    assert((2 * idx + 1) * h <= (2 * idx + 2) * h) by (nonlinear_arith);
    assert(idx + 1 <= tw_len + 1) by (nonlinear_arith)
        requires
            (idx + 1) * len <= 2 * tw_len + 2,
            len >= 2,
    ;
}

/// The forward transform of the segment `v[start .. start + len]` at twiddle
/// node `idx`.
pub fn fft_twiddles<F: BinaryField>(
    v: &mut Vec<F>,
    start: usize,
    len: usize,
    twiddles: &[F],
    idx: usize,
)
    requires
        start + len <= old(v).len(),
        is_pow2(len as nat),
        twiddles_fit(len as nat, idx as nat, twiddles@.len()),
    ensures
        final(v)@ == splice(
            old(v)@,
            start as int,
            len as int,
            spec_fft(old(v)@.subrange(start as int, start + len), twiddles@, idx as int),
        ),
    decreases len,
{
    let ghost s = old(v)@.subrange(start as int, start + len);
    if len == 1 {
        assert(v@ =~= splice(old(v)@, start as int, len as int, s));
        return;
    }
    proof {
        lemma_twiddles_fit_children(len as nat, idx as nat, twiddles@.len());
    }
    let lambda = twiddles[idx - 1];
    fft_mul_range(v, start, len, lambda);
    let ghost v1 = v@;
    let ghost t = spec_fft_mul(s, lambda);
    let h = len / 2;
    assert(v1.subrange(start as int, start + h) =~= t.subrange(0, h as int));
    assert(v1.subrange(start + h, start + len) =~= t.subrange(h as int, len as int));
    fft_twiddles(v, start, h, twiddles, 2 * idx);
    proof {
        lemma_fft_len(t.subrange(0, h as int), twiddles@, 2 * idx);
    }
    let ghost v2 = v@;
    assert(v2.subrange(start + h, start + len) =~= t.subrange(h as int, len as int));
    fft_twiddles(v, start + h, h, twiddles, 2 * idx + 1);
    proof {
        let fa = spec_fft(t.subrange(0, h as int), twiddles@, 2 * idx);
        let fb = spec_fft(t.subrange(h as int, len as int), twiddles@, 2 * idx + 1);
        lemma_fft_len(t.subrange(0, h as int), twiddles@, 2 * idx);
        lemma_fft_len(t.subrange(h as int, len as int), twiddles@, 2 * idx + 1);
        assert(v@ =~= splice(old(v)@, start as int, len as int, fa + fb));
    }
}

/// The inverse transform of the segment `v[start .. start + len]` at twiddle
/// node `idx`.
pub fn ifft_twiddles<F: BinaryField>(
    v: &mut Vec<F>,
    start: usize,
    len: usize,
    twiddles: &[F],
    idx: usize,
)
    requires
        start + len <= old(v).len(),
        is_pow2(len as nat),
        twiddles_fit(len as nat, idx as nat, twiddles@.len()),
    ensures
        final(v)@ == splice(
            old(v)@,
            start as int,
            len as int,
            spec_ifft(old(v)@.subrange(start as int, start + len), twiddles@, idx as int),
        ),
    decreases len,
{
    let ghost s = old(v)@.subrange(start as int, start + len);
    if len == 1 {
        assert(v@ =~= splice(old(v)@, start as int, len as int, s));
        return;
    }
    proof {
        lemma_twiddles_fit_children(len as nat, idx as nat, twiddles@.len());
    }
    let h = len / 2;
    assert(old(v)@.subrange(start as int, start + h) =~= s.subrange(0, h as int));
    ifft_twiddles(v, start, h, twiddles, 2 * idx);
    proof {
        lemma_fft_len(s.subrange(0, h as int), twiddles@, 2 * idx);
    }
    let ghost v1 = v@;
    assert(v1.subrange(start + h, start + len) =~= s.subrange(h as int, len as int));
    ifft_twiddles(v, start + h, h, twiddles, 2 * idx + 1);
    let ghost ia = spec_ifft(s.subrange(0, h as int), twiddles@, 2 * idx);
    let ghost ib = spec_ifft(s.subrange(h as int, len as int), twiddles@, 2 * idx + 1);
    proof {
        lemma_fft_len(s.subrange(0, h as int), twiddles@, 2 * idx);
        lemma_fft_len(s.subrange(h as int, len as int), twiddles@, 2 * idx + 1);
        assert(v@.subrange(start as int, start + len) =~= ia + ib);
    }
    let lambda = twiddles[idx - 1];
    ifft_mul_range(v, start, len, lambda);
    assert(v@ =~= splice(old(v)@, start as int, len as int, spec_ifft_mul(ia + ib, lambda)));
}

/// The twiddle tree of `tw` covers a transform of length `n`.
pub open spec fn twiddles_cover(n: nat, tw_len: nat) -> bool {
    n <= tw_len + 1 && tw_len < usize::MAX / 2
}

proof fn lemma_cover_fits(n: nat, tw_len: nat)
    requires
        twiddles_cover(n, tw_len),
    ensures
        twiddles_fit(n, 1, tw_len),
{
    assert((1nat + 1) * n == 2 * n) by (nonlinear_arith);
}

/// The forward additive FFT of `v` in place. `parallel` is a scheduling hint
/// only; the result does not depend on it.
pub fn fft<F: BinaryField>(v: &mut Vec<F>, twiddles: &[F], parallel: Option<bool>)
    requires
        is_pow2(old(v)@.len()),
        twiddles_cover(old(v)@.len(), twiddles@.len()),
    ensures
        final(v)@ == spec_fft(old(v)@, twiddles@, 1),
{
    let n = v.len();
    proof {
        lemma_cover_fits(n as nat, twiddles@.len());
    }
    fft_twiddles(v, 0, n, twiddles, 1);
    assert(old(v)@.subrange(0, n as int) =~= old(v)@);
    proof {
        lemma_fft_len(old(v)@, twiddles@, 1);
    }
    assert(v@ =~= spec_fft(old(v)@, twiddles@, 1));
}

/// The inverse additive FFT of `v` in place.
pub fn ifft<F: BinaryField>(v: &mut Vec<F>, twiddles: &[F])
    requires
        is_pow2(old(v)@.len()),
        twiddles_cover(old(v)@.len(), twiddles@.len()),
    ensures
        final(v)@ == spec_ifft(old(v)@, twiddles@, 1),
{
    let n = v.len();
    proof {
        lemma_cover_fits(n as nat, twiddles@.len());
    }
    ifft_twiddles(v, 0, n, twiddles, 1);
    assert(old(v)@.subrange(0, n as int) =~= old(v)@);
    proof {
        lemma_fft_len(old(v)@, twiddles@, 1);
    }
    assert(v@ =~= spec_ifft(old(v)@, twiddles@, 1));
}

// ---------------------------------------------------------------------------
// Subspace polynomials and the novel basis
// ---------------------------------------------------------------------------

/// `s_prev^2 + s_prev_at_root * s_prev`: one step of the subspace-polynomial
/// recurrence.
pub open spec fn spec_next_s<F: BinaryField>(s_prev: F, s_prev_at_root: F) -> F {
    F::spec_add(F::spec_mul(s_prev, s_prev), F::spec_mul(s_prev_at_root, s_prev))
}

/// The basis vector `v_i`, the element with only bit `i` set.
pub open spec fn spec_v<F: BinaryField>(i: nat) -> F {
    F::spec_from_nat(pow2(i))
}

/// The subspace polynomial `s_i` (vanishing on the span of `v_0 .. v_{i-1}`)
/// evaluated at `x`: `s_0(x) = x`, `s_i(x) = s_{i-1}(x)^2 + s_{i-1}(v_{i-1}) s_{i-1}(x)`.
pub open spec fn spec_subspace_poly<F: BinaryField>(i: nat, x: F) -> F
    decreases i,
{
    if i == 0 {
        x
    } else {
        spec_next_s(
            spec_subspace_poly((i - 1) as nat, x),
            spec_subspace_poly((i - 1) as nat, spec_v((i - 1) as nat)),
        )
    }
}

/// `s_k(x)` computed from given values `sks_vks[j]` of `s_j(v_j)`.
pub open spec fn spec_sks_at_x<F: BinaryField>(sks_vks: Seq<F>, x: F, k: nat) -> F
    decreases k,
{
    if k == 0 {
        x
    } else {
        spec_next_s(spec_sks_at_x(sks_vks, x, (k - 1) as nat), sks_vks[k - 1])
    }
}

/// The first `num` values `s_0(x) .. s_{num-1}(x)`.
pub open spec fn spec_sks_at_x_seq<F: BinaryField>(sks_vks: Seq<F>, x: F, num: nat) -> Seq<F> {
    Seq::new(num, |k: int| spec_sks_at_x(sks_vks, x, k as nat))
}

/// The `m`-th novel-basis value scaled by `alpha`: `alpha` times the product
/// of `sks[b]` over the set bits `b` of `m`, highest bit outermost.
pub open spec fn spec_basis<F: BinaryField>(sks: Seq<F>, alpha: F, m: nat) -> F
    decreases m,
{
    if m == 0 {
        alpha
    } else {
        let b = log2(m);
        proof {
            lemma_log2_bounds(m);
            lemma_pow2_pos(b);
        }
        F::spec_mul(sks[b as int], spec_basis(sks, alpha, (m - pow2(b)) as nat))
    }
}

/// The basis values `0 .. len` as a sequence.
pub open spec fn spec_basis_seq<F: BinaryField>(sks: Seq<F>, alpha: F, len: nat) -> Seq<F> {
    Seq::new(len, |m: int| spec_basis(sks, alpha, m as nat))
}

fn next_s<F: BinaryField>(s_prev: F, s_prev_at_root: F) -> (r: F)
    ensures
        r == spec_next_s(s_prev, s_prev_at_root),
{
    s_prev.mul(s_prev).add(s_prev_at_root.mul(s_prev))
}

/// Writes `basis[m] = spec_basis(sks, alpha, m)` for `m < 2^num`, leaving the
/// rest of `basis` as it was.
fn fill_basis<F: BinaryField>(basis: &mut Vec<F>, sks: &Vec<F>, num: usize, alpha: F)
    requires
        pow2(num as nat) <= old(basis).len(),
        num <= sks.len(),
    ensures
        final(basis).len() == old(basis).len(),
        forall|m: int| 0 <= m < pow2(num as nat) ==> #[trigger] final(basis)@[m] == spec_basis(sks@, alpha, m as nat),
        forall|m: int| pow2(num as nat) <= m < old(basis).len() ==> #[trigger] final(basis)@[m] == old(basis)@[m],
{
    proof {
        lemma2_to64();
        lemma_pow2_pos(num as nat);
        lemma_pow2_fits(num as nat);
    }
    basis.set(0, alpha);
    let mut i: usize = 1;
    while i <= num
        invariant
            1 <= i <= num + 1,
            num < 64,
            num <= sks.len(),
            pow2(num as nat) <= basis.len(),
            basis.len() == old(basis).len(),
            forall|m: int| 0 <= m < pow2((i - 1) as nat) ==> #[trigger] basis@[m] == spec_basis(sks@, alpha, m as nat),
            forall|m: int| pow2(num as nat) <= m < basis.len() ==> #[trigger] basis@[m] == old(basis)@[m],
        decreases num + 1 - i,
    {
        proof {
            lemma_pow2_strictly_increases((i - 1) as nat, num as nat);
            lemma_pow2_unfold(i as nat);
            if i < num {
                lemma_pow2_strictly_increases(i as nat, num as nat);
            }
        }
        let current_len: usize = pow2_usize(i - 1);
        let factor = sks[i - 1];
        let mut j: usize = 1;
        while j <= current_len
            invariant
                1 <= i <= num,
                num <= sks.len(),
                factor == sks@[i - 1],
                current_len == pow2((i - 1) as nat),
                2 * current_len == pow2(i as nat),
                pow2(i as nat) <= pow2(num as nat),
                pow2(num as nat) <= basis.len(),
                basis.len() == old(basis).len(),
                1 <= j <= current_len + 1,
                forall|m: int| 0 <= m < current_len + j - 1 ==> #[trigger] basis@[m] == spec_basis(sks@, alpha, m as nat),
                forall|m: int| pow2(num as nat) <= m < basis.len() ==> #[trigger] basis@[m] == old(basis)@[m],
            decreases current_len + 1 - j,
        {
            let t = j - 1;
            proof {
                lemma_log2_of_sum((i - 1) as nat, t as nat);
                assert(spec_basis(sks@, alpha, (current_len + t) as nat) == F::spec_mul(
                    sks@[i - 1],
                    spec_basis(sks@, alpha, t as nat),
                ));
            }
            let prev = basis[t];
            basis.set(current_len + t, factor.mul(prev));
            j = j + 1;
        }
        i = i + 1;
    }
}

/// `s_i(v_i)` for `i = 0 ..= log2(n)`.
pub fn eval_sk_at_vks<F: BinaryField>(n: usize) -> (r: Vec<F>)
    requires
        is_pow2(n as nat),
        n < F::spec_order(),
    ensures
        r@.len() == log2(n as nat) + 1,
        forall|i: int| 0 <= i <= log2(n as nat) ==> #[trigger] r@[i] == spec_subspace_poly(i as nat, spec_v::<F>(i as nat)),
{
    let num_subspaces = ilog2(n);
    proof {
        lemma_is_pow2_log2(n as nat);
        lemma_log2_fits(n as nat);
        F::lemma_order();
    }
    let mut sk_vks: Vec<F> = Vec::with_capacity(num_subspaces + 1);
    sk_vks.push(F::one());
    proof {
        lemma2_to64();
        assert(spec_v::<F>(0) == F::spec_one());
    }
    let mut layer: Vec<F> = Vec::with_capacity(num_subspaces);
    let mut k: usize = 1;
    while k <= num_subspaces
        invariant
            1 <= k <= num_subspaces + 1,
            num_subspaces == log2(n as nat),
            num_subspaces < 64,
            n == pow2(num_subspaces as nat),
            n < F::spec_order(),
            layer@.len() == k - 1,
            forall|q: int| 0 <= q < k - 1 ==> #[trigger] layer@[q] == spec_v::<F>((q + 1) as nat),
        decreases num_subspaces + 1 - k,
    {
        proof {
            if k < num_subspaces {
                lemma_pow2_strictly_increases(k as nat, num_subspaces as nat);
            }
        }
        let vk = pow2_usize(k);
        layer.push(F::from_usize(vk));
        k = k + 1;
    }
    let mut cur_len = num_subspaces;
    let mut i: usize = 1;
    while i <= num_subspaces
        invariant
            1 <= i <= num_subspaces + 1,
            num_subspaces < 64,
            cur_len + i == num_subspaces + 1,
            layer@.len() == num_subspaces,
            sk_vks@.len() == i,
            forall|q: int| 0 <= q < i ==> #[trigger] sk_vks@[q] == spec_subspace_poly(q as nat, spec_v::<F>(q as nat)),
            forall|q: int| 0 <= q < cur_len ==> #[trigger] layer@[q] == spec_subspace_poly((i - 1) as nat, spec_v::<F>((i + q) as nat)),
        decreases num_subspaces + 1 - i,
    {
        let root = sk_vks[i - 1];
        let mut j: usize = 1;
        while j <= cur_len
            invariant
                1 <= i <= num_subspaces,
                num_subspaces < 64,
                cur_len + i == num_subspaces + 1,
                1 <= j <= cur_len + 1,
                layer@.len() == num_subspaces,
                root == spec_subspace_poly((i - 1) as nat, spec_v::<F>((i - 1) as nat)),
                sk_vks@.len() == if j == 1 { i as int } else { i + 1 },
                forall|q: int| 0 <= q < i ==> #[trigger] sk_vks@[q] == spec_subspace_poly(q as nat, spec_v::<F>(q as nat)),
                j > 1 ==> sk_vks@[i as int] == spec_subspace_poly(i as nat, spec_v::<F>(i as nat)),
                forall|q: int| 0 <= q < j - 2 ==> #[trigger] layer@[q] == spec_subspace_poly(i as nat, spec_v::<F>((i + q + 1) as nat)),
                forall|q: int| (if j >= 2 { j - 2 } else { 0 }) <= q < cur_len ==> (q >= j - 1 || j < 2) ==> #[trigger] layer@[q] == spec_subspace_poly((i - 1) as nat, spec_v::<F>((i + q) as nat)),
            decreases cur_len + 1 - j,
        {
            if j == 1 {
                let l0 = layer[0];
                sk_vks.push(next_s(l0, root));
            } else {
                let lj = layer[j - 1];
                layer.set(j - 2, next_s(lj, root));
            }
            j = j + 1;
        }
        cur_len = cur_len - 1;
        i = i + 1;
    }
    sk_vks
}

/// The novel-basis values `X_0(x) .. X_{basis_len - 1}(x)`, from the values
/// `sks_vks[j] = s_j(v_j)`.
pub fn evaluate_basis<F: BinaryField>(basis_len: usize, sks_vks: &Vec<F>, x: F) -> (r: Vec<F>)
    requires
        is_pow2(basis_len as nat),
        log2(basis_len as nat) <= sks_vks.len() + 1,
    ensures
        r@ == spec_basis_seq(
            spec_sks_at_x_seq(sks_vks@, x, log2(basis_len as nat)),
            F::spec_one(),
            basis_len as nat,
        ),
{
    let num_subspaces = ilog2(basis_len);
    proof {
        lemma_is_pow2_log2(basis_len as nat);
        lemma_log2_fits(basis_len as nat);
    }
    let sks_at_x = sks_at_x_values(sks_vks, x, num_subspaces);
    let mut basis: Vec<F> = Vec::with_capacity(basis_len);
    let mut k: usize = 0;
    while k < basis_len
        invariant
            k <= basis_len,
            basis@.len() == k,
        decreases basis_len - k,
    {
        basis.push(F::zero());
        k = k + 1;
    }
    fill_basis(&mut basis, &sks_at_x, num_subspaces, F::one());
    assert(basis@ =~= spec_basis_seq(
        spec_sks_at_x_seq(sks_vks@, x, log2(basis_len as nat)),
        F::spec_one(),
        basis_len as nat,
    ));
    basis
}

/// `s_0(x) .. s_{num-1}(x)` (at least one value).
fn sks_at_x_values<F: BinaryField>(sks_vks: &Vec<F>, x: F, num: usize) -> (r: Vec<F>)
    requires
        num <= sks_vks.len() + 1,
        num < 64,
    ensures
        r@ == spec_sks_at_x_seq(sks_vks@, x, if num == 0 { 1 } else { num as nat }),
{
    let mut out: Vec<F> = Vec::with_capacity(num);
    out.push(x);
    let mut i: usize = 2;
    while i <= num
        invariant
            2 <= i,
            num < 64,
            num <= sks_vks.len() + 1,
            i <= num + 1 || (num <= 1 && i == 2),
            out@.len() == i - 1,
            forall|k: int| 0 <= k < i - 1 ==> #[trigger] out@[k] == spec_sks_at_x(sks_vks@, x, k as nat),
        decreases num + 1 - i,
    {
        let prev = out[i - 2];
        let root = sks_vks[i - 2];
        out.push(next_s(prev, root));
        i = i + 1;
    }
    assert(out@ =~= spec_sks_at_x_seq(sks_vks@, x, if num == 0 { 1 } else { num as nat }));
    out
}

/// Writes `s_k(x)` into `sks_at_x[k]` for `k < log2(basis.len())` (and `x`
/// into `sks_at_x[0]`), and the novel-basis values scaled by `alpha` into
/// `basis[0 .. 2^log2(basis.len())]`.
pub fn evaluate_scaled_basis_inplace<F: BinaryField>(
    sks_at_x: &mut Vec<F>,
    basis: &mut Vec<F>,
    sks_vks: &Vec<F>,
    x: F,
    alpha: F,
)
    requires
        old(basis).len() >= 1,
        old(sks_at_x).len() >= 1,
        old(sks_at_x).len() >= log2(old(basis).len() as nat),
        log2(old(basis).len() as nat) <= sks_vks.len() + 1,
    ensures
        final(sks_at_x).len() == old(sks_at_x).len(),
        final(basis).len() == old(basis).len(),
        final(sks_at_x)@[0] == x,
        forall|k: int| 0 <= k < log2(old(basis).len() as nat) ==> #[trigger] final(sks_at_x)@[k] == spec_sks_at_x(sks_vks@, x, k as nat),
        forall|k: int| log2(old(basis).len() as nat) <= k < old(sks_at_x).len() && k > 0 ==> #[trigger] final(sks_at_x)@[k] == old(sks_at_x)@[k],
        forall|m: int| 0 <= m < pow2(log2(old(basis).len() as nat)) ==> #[trigger] final(basis)@[m] == spec_basis(
            spec_sks_at_x_seq(sks_vks@, x, log2(old(basis).len() as nat)),
            alpha,
            m as nat,
        ),
        forall|m: int| pow2(log2(old(basis).len() as nat)) <= m < old(basis).len() ==> #[trigger] final(basis)@[m] == old(basis)@[m],
{
    let num_subspaces = ilog2(basis.len());
    proof {
        lemma_log2_bounds(basis.len() as nat);
        lemma_log2_fits(basis.len() as nat);
    }
    sks_at_x.set(0, x);
    let mut i: usize = 2;
    while i <= num_subspaces
        invariant
            2 <= i,
            i <= num_subspaces + 1 || (num_subspaces <= 1 && i == 2),
            num_subspaces < 64,
            num_subspaces == log2(old(basis).len() as nat),
            num_subspaces <= sks_at_x.len(),
            num_subspaces <= sks_vks.len() + 1,
            sks_at_x.len() == old(sks_at_x).len(),
            sks_at_x@[0] == x,
            forall|k: int| 0 <= k < i - 1 ==> #[trigger] sks_at_x@[k] == spec_sks_at_x(sks_vks@, x, k as nat),
            forall|k: int| i - 1 <= k < old(sks_at_x).len() && k > 0 ==> #[trigger] sks_at_x@[k] == old(sks_at_x)@[k],
        decreases num_subspaces + 1 - i,
    {
        let prev = sks_at_x[i - 2];
        let root = sks_vks[i - 2];
        sks_at_x.set(i - 1, next_s(prev, root));
        i = i + 1;
    }
    let ghost sks_seq = spec_sks_at_x_seq(sks_vks@, x, num_subspaces as nat);
    let mut prefix: Vec<F> = Vec::with_capacity(num_subspaces);
    let mut k: usize = 0;
    while k < num_subspaces
        invariant
            k <= num_subspaces,
            num_subspaces <= sks_at_x.len(),
            prefix@.len() == k,
            forall|q: int| 0 <= q < k ==> #[trigger] prefix@[q] == sks_at_x@[q],
        decreases num_subspaces - k,
    {
        prefix.push(sks_at_x[k]);
        k = k + 1;
    }
    assert(prefix@ =~= sks_seq);
    fill_basis(basis, &prefix, num_subspaces, alpha);
}

/// The scaling factors of the non-systematic encoder: `pis[m]` is the
/// product of `sks_vks[b]` over the set bits `b` of `m`.
pub fn compute_pis<F: BinaryField>(pis_len: usize, sks_vks: &Vec<F>) -> (r: Vec<F>)
    requires
        sks_vks.len() >= 1,
        pis_len == pow2((sks_vks.len() - 1) as nat),
    ensures
        r@ == spec_basis_seq(sks_vks@, F::spec_one(), pis_len as nat),
{
    let mut pis: Vec<F> = Vec::with_capacity(pis_len);
    let mut k: usize = 0;
    while k < pis_len
        invariant
            k <= pis_len,
            pis@.len() == k,
        decreases pis_len - k,
    {
        pis.push(F::zero());
        k = k + 1;
    }
    fill_basis(&mut pis, sks_vks, sks_vks.len() - 1, F::one());
    assert(pis@ =~= spec_basis_seq(sks_vks@, F::spec_one(), pis_len as nat));
    pis
}

// ---------------------------------------------------------------------------
// Twiddle factors
// ---------------------------------------------------------------------------

/// The first layer: `beta + 2 i` for `i < 2^(k-1)`.
pub open spec fn spec_layer_0<F: BinaryField>(beta: F, k: nat) -> Seq<F> {
    Seq::new(pow2((k - 1) as nat), |i: int| F::spec_add(beta, F::spec_from_nat((2 * i) as nat)))
}

/// The layer and the subspace-polynomial value at its root after `r` rounds
/// of the twiddle computation for `2^log_n` points shifted by `beta`.
pub open spec fn spec_twiddle_round<F: BinaryField>(log_n: nat, beta: F, r: nat) -> (Seq<F>, F)
    decreases r,
{
    if r == 0 {
        (spec_layer_0(beta, log_n), F::spec_one())
    } else {
        let (layer, s_prev) = spec_twiddle_round(log_n, beta, (r - 1) as nat);
        let size = pow2((log_n - 1 - r) as nat);
        let s_at_root = spec_next_s(F::spec_add(layer[1], layer[0]), s_prev);
        (
            Seq::new(
                layer.len(),
                |w: int|
                    if w < size {
                        spec_next_s(layer[2 * w], s_prev)
                    } else {
                        layer[w]
                    },
            ),
            s_at_root,
        )
    }
}

/// The twiddle tree for `2^log_n` points shifted by `beta`: node `2^d + i`
/// (1-based) holds entry `i` of the layer of depth `d`, scaled by the inverse
/// of the subspace polynomial at that layer's root (the deepest layer is not
/// scaled).
pub open spec fn spec_twiddles<F: BinaryField>(log_n: nat, beta: F) -> Seq<F> {
    Seq::new(
        (pow2(log_n) - 1) as nat,
        |p: int|
            {
                let d = log2((p + 1) as nat);
                let i = p + 1 - pow2(d);
                if d == log_n - 1 {
                    spec_layer_0(beta, log_n)[i]
                } else {
                    let (layer, s) = spec_twiddle_round(log_n, beta, (log_n - 1 - d) as nat);
                    F::spec_mul(s.spec_inverse(), layer[i])
                }
            },
    )
}

proof fn lemma_twiddle_round_len<F: BinaryField>(log_n: nat, beta: F, r: nat)
    ensures
        spec_twiddle_round(log_n, beta, r).0.len() == pow2((log_n - 1) as nat),
    decreases r,
{
    if r > 0 {
        lemma_twiddle_round_len(log_n, beta, (r - 1) as nat);
    }
}

fn layer_0<F: BinaryField>(layer: &mut Vec<F>, beta: F, k: usize) -> (r: F)
    requires
        k >= 1,
        pow2(k as nat) <= F::spec_order(),
        pow2(k as nat) <= usize::MAX,
        old(layer).len() == pow2((k - 1) as nat),
    ensures
        final(layer)@ == spec_layer_0(beta, k as nat),
        r == F::spec_one(),
{
    proof {
        lemma_pow2_unfold(k as nat);
        F::lemma_order();
    }
    let half = pow2_usize(k - 1);
    let mut i: usize = 0;
    while i < half
        invariant
            i <= half,
            half == pow2((k - 1) as nat),
            2 * half <= F::spec_order(),
            2 * half <= usize::MAX,
            layer.len() == half,
            forall|q: int| 0 <= q < i ==> #[trigger] layer@[q] == spec_layer_0(beta, k as nat)[q],
        decreases half - i,
    {
        let l0i = beta.add(F::from_usize(i * 2));
        layer.set(i, l0i);
        i = i + 1;
    }
    assert(layer@ =~= spec_layer_0(beta, k as nat));
    F::from_usize(1)
}

fn compute_s_at_root<F: BinaryField>(prev_layer: &Vec<F>, s_prev_at_root: F) -> (r: F)
    requires
        prev_layer.len() >= 2,
    ensures
        r == spec_next_s(F::spec_add(prev_layer@[1], prev_layer@[0]), s_prev_at_root),
{
    next_s(prev_layer[1].add(prev_layer[0]), s_prev_at_root)
}

fn layer_i<F: BinaryField>(layer: &mut Vec<F>, layer_size: usize, s_prev_at_root: F) -> (r: F)
    requires
        old(layer).len() >= 2,
        2 * layer_size <= old(layer).len(),
    ensures
        final(layer).len() == old(layer).len(),
        r == spec_next_s(F::spec_add(old(layer)@[1], old(layer)@[0]), s_prev_at_root),
        final(layer)@ == Seq::new(
            old(layer)@.len(),
            |w: int|
                if w < layer_size {
                    spec_next_s(old(layer)@[2 * w], s_prev_at_root)
                } else {
                    old(layer)@[w]
                },
        ),
{
    let s_at_root = compute_s_at_root(layer, s_prev_at_root);
    let ghost target = Seq::new(
        old(layer)@.len(),
        |w: int|
            if w < layer_size {
                spec_next_s(old(layer)@[2 * w], s_prev_at_root)
            } else {
                old(layer)@[w]
            },
    );
    let mut write_idx: usize = 0;
    while write_idx < layer_size
        invariant
            write_idx <= layer_size,
            2 * layer_size <= layer.len(),
            target == Seq::new(
                old(layer)@.len(),
                |w: int|
                    if w < layer_size {
                        spec_next_s(old(layer)@[2 * w], s_prev_at_root)
                    } else {
                        old(layer)@[w]
                    },
            ),
            layer.len() == old(layer).len(),
            forall|q: int| 0 <= q < write_idx ==> #[trigger] layer@[q] == target[q],
            forall|q: int| write_idx <= q < layer.len() ==> #[trigger] layer@[q] == old(layer)@[q],
        decreases layer_size - write_idx,
    {
        let read_idx = 2 * write_idx;
        let s_prev = layer[read_idx];
        layer.set(write_idx, next_s(s_prev, s_prev_at_root));
        write_idx = write_idx + 1;
    }
    assert(layer@ =~= target);
    s_at_root
}

/// The twiddle tree of the additive FFT on `2^log_n` points shifted by
/// `beta` (zero when `None`).
pub fn compute_twiddles<F: BinaryField>(log_n: usize, beta: Option<F>) -> (r: Vec<F>)
    requires
        log_n >= 1,
        pow2(log_n as nat) <= F::spec_order(),
        pow2(log_n as nat) <= usize::MAX,
    ensures
        r@ == spec_twiddles(
            log_n as nat,
            match beta {
                Some(b) => b,
                None => F::spec_zero(),
            },
        ),
{
    let beta = match beta {
        Some(b) => b,
        None => F::zero(),
    };
    proof {
        lemma_pow2_unfold(log_n as nat);
        lemma_pow2_pos((log_n - 1) as nat);
        lemma_pow2_fits(log_n as nat);
    }
    let n = pow2_usize(log_n);
    let total = n - 1;
    let mut twiddles: Vec<F> = Vec::with_capacity(total);
    let mut k: usize = 0;
    while k < total
        invariant
            k <= total,
            twiddles@.len() == k,
        decreases total - k,
    {
        twiddles.push(F::zero());
        k = k + 1;
    }
    let top = pow2_usize(log_n - 1);
    let mut layer: Vec<F> = Vec::with_capacity(top);
    k = 0;
    while k < top
        invariant
            k <= top,
            layer@.len() == k,
        decreases top - k,
    {
        layer.push(F::zero());
        k = k + 1;
    }
    let mut write_at = top;
    let mut s_prev_at_root = layer_0(&mut layer, beta, log_n);
    let ghost tw_spec = spec_twiddles(log_n as nat, beta);
    // the deepest layer goes to nodes top .. 2 top - 1
    let mut i: usize = 0;
    while i < top
        invariant
            i <= top,
            n == 2 * top,
            top == pow2((log_n - 1) as nat),
            twiddles@.len() == n - 1,
            layer@ == spec_layer_0(beta, log_n as nat),
            tw_spec == spec_twiddles(log_n as nat, beta),
            log_n >= 1,
            n == pow2(log_n as nat),
            forall|p: int| top - 1 <= p < top - 1 + i ==> #[trigger] twiddles@[p] == tw_spec[p],
        decreases top - i,
    {
        proof {
            lemma_log2_of_sum((log_n - 1) as nat, i as nat);
        }
        twiddles.set(top - 1 + i, layer[i]);
        i = i + 1;
    }
    let mut round: usize = 0;
    while round < log_n - 1
        invariant
            round <= log_n - 1,
            log_n >= 1,
            log_n < 64,
            n == 2 * top,
            n == pow2(log_n as nat),
            top == pow2((log_n - 1) as nat),
            twiddles@.len() == n - 1,
            tw_spec == spec_twiddles(log_n as nat, beta),
            write_at == pow2((log_n - 1 - round) as nat),
            (layer@, s_prev_at_root) == spec_twiddle_round(log_n as nat, beta, round as nat),
            forall|p: int| write_at - 1 <= p < n - 1 ==> #[trigger] twiddles@[p] == tw_spec[p],
        decreases log_n - 1 - round,
    {
        proof {
            lemma_pow2_unfold((log_n - 1 - round) as nat);
            lemma_pow2_pos((log_n - 2 - round) as nat);
            lemma_twiddle_round_len(log_n as nat, beta, round as nat);
            if round > 0 {
                lemma_pow2_strictly_increases((log_n - 1 - round) as nat, (log_n - 1) as nat);
            }
            lemma_pow2_unfold((log_n - 1) as nat);
        }
        write_at = write_at / 2;
        let layer_size = write_at;
        s_prev_at_root = layer_i(&mut layer, layer_size, s_prev_at_root);
        proof {
            let (lr, sr) = spec_twiddle_round(log_n as nat, beta, (round + 1) as nat);
            assert(layer@ =~= lr);
        }
        let s_inv = match s_prev_at_root.inverse() {
            Ok(v) => v,
            Err(_) => F::zero(),
        };
        proof {
            F::lemma_inverse_zero();
        }
        let mut i: usize = 0;
        while i < layer_size
            invariant
                i <= layer_size,
                layer_size == write_at,
                write_at == pow2((log_n - 2 - round) as nat),
                round + 2 <= log_n,
                log_n < 64,
                n == pow2(log_n as nat),
                2 * write_at <= top,
                n == 2 * top,
                write_at >= 1,
                layer@.len() == top,
                twiddles@.len() == n - 1,
                tw_spec == spec_twiddles(log_n as nat, beta),
                s_inv == s_prev_at_root.spec_inverse(),
                (layer@, s_prev_at_root) == spec_twiddle_round(log_n as nat, beta, (round + 1) as nat),
                forall|p: int| 2 * write_at - 1 <= p < n - 1 ==> #[trigger] twiddles@[p] == tw_spec[p],
                forall|p: int| write_at - 1 <= p < write_at - 1 + i ==> #[trigger] twiddles@[p] == tw_spec[p],
            decreases layer_size - i,
        {
            proof {
                lemma_log2_of_sum((log_n - 2 - round) as nat, i as nat);
            }
            let li = layer[i];
            twiddles.set(write_at + i - 1, s_inv.mul(li));
            i = i + 1;
        }
        round = round + 1;
    }
    proof {
        lemma2_to64();
    }
    assert(twiddles@ =~= tw_spec);
    twiddles
}

} // verus!
