//! Reed-Solomon encoding over binary fields by the additive FFT.
use crate::binary_fft::{
    compute_pis, compute_twiddles, eval_sk_at_vks, fft, fft_twiddles, ifft_twiddles, ilog2, is_pow2,
    lemma_fft_len, lemma_fft_linear, lemma_fft_relocate, lemma_fft_undoes_ifft, lemma_is_pow2_log2, lemma_log2_fits, lemma_log2_of_sum, lemma_pow2_fits, lemma_pow2_le,
    lemma_pow2_is_pow2, log2, pow2_usize, spec_basis_seq, spec_fft, spec_ifft, spec_subspace_poly,
    spec_fft_mul, spec_lin, spec_twiddles, spec_v, splice, tw_node, same_subtree,
};
use crate::binary_field::BinaryField;
use vstd::arithmetic::power2::*;
use vstd::prelude::*;

verus! {

/// A Reed-Solomon code with messages of `2^log_message_length` symbols and
/// codewords of `2^log_block_length` symbols.
pub struct ReedSolomonEncoding<F: BinaryField> {
    log_message_length: usize,
    log_block_length: usize,
    twiddles: Vec<F>,
    pis: Vec<F>,
}

/// The twiddle tree of a shorter transform read off a longer one: level `d`
/// of the short tree (of `2^k - 1` nodes) is the first `2^d` nodes of level
/// `n - k + d` of the long tree.
pub open spec fn spec_short_from_long<F>(l_tw: Seq<F>, n: nat, k: nat) -> Seq<F> {
    Seq::new(
        (pow2(k) - 1) as nat,
        |p: int|
            {
                let d = log2((p + 1) as nat);
                let j = p + 1 - pow2(d);
                l_tw[pow2((n - k + d) as nat) + j - 1]
            },
    )
}

/// The scaling factors of the non-systematic encoder for messages of
/// `2^log_m` symbols.
pub open spec fn spec_pis<F: BinaryField>(log_m: nat) -> Seq<F> {
    spec_basis_seq(
        Seq::new(log_m + 1, |i: int| spec_subspace_poly(i as nat, spec_v::<F>(i as nat))),
        F::spec_one(),
        pow2(log_m),
    )
}

/// `s` followed by zeros up to length `n`.
pub open spec fn spec_pad<F: BinaryField>(s: Seq<F>, n: nat) -> Seq<F> {
    Seq::new(n, |i: int| if i < s.len() { s[i] } else { F::spec_zero() })
}

/// The first `2^k` outputs of the transform of `x` (of length `2^k`) padded
/// with zeros to length `2^n` are the transform of `x` at the leftmost node
/// of depth `n - k` below `idx`.
proof fn lemma_fft_of_padded<F: BinaryField>(x: Seq<F>, k: nat, n: nat, tw: Seq<F>, idx: int)
    requires
        x.len() == pow2(k),
        k <= n,
    ensures
        spec_fft(spec_pad(x, pow2(n)), tw, idx).subrange(0, pow2(k) as int) == spec_fft(
            x,
            tw,
            idx * pow2((n - k) as nat),
        ),
    decreases n,
{
    let s = spec_pad(x, pow2(n));
    lemma_fft_len(s, tw, idx);
    lemma_fft_len(x, tw, idx);
    if n == k {
        assert(s =~= x);
        lemma2_to64();
        assert(spec_fft(s, tw, idx).subrange(0, pow2(k) as int) =~= spec_fft(x, tw, idx));
        assert(pow2((n - k) as nat) == 1);
        assert(idx * pow2((n - k) as nat) == idx);
    } else {
        lemma_pow2_unfold(n);
        lemma_pow2_le(k, (n - 1) as nat);
        lemma_pow2_pos(k);
        let nn = s.len() as int;
        let h = nn / 2;
        let lambda = tw[idx - 1];
        let t = spec_fft_mul(s, lambda);
        assert(t.subrange(0, h) =~= spec_pad(x, pow2((n - 1) as nat))) by {
            assert forall|i: int| 0 <= i < h implies #[trigger] t[i] == spec_pad(x, pow2((n - 1) as nat))[i] by {
                F::lemma_mul_zero(lambda);
                F::lemma_add_zero(s[i]);
            }
        }
        let left = spec_fft(t.subrange(0, h), tw, 2 * idx);
        let right = spec_fft(t.subrange(h, nn), tw, 2 * idx + 1);
        lemma_fft_len(t.subrange(0, h), tw, 2 * idx);
        lemma_fft_of_padded(x, k, (n - 1) as nat, tw, 2 * idx);
        assert(spec_fft(s, tw, idx) == left + right);
        assert((left + right).subrange(0, pow2(k) as int) =~= left.subrange(0, pow2(k) as int));
        assert(((n - 1) as nat - k) as nat == (n - 1 - k) as nat);
        assert(left.subrange(0, pow2(k) as int) == spec_fft(x, tw, (2 * idx) * pow2((n - 1 - k) as nat)));
        lemma_pow2_unfold((n - k) as nat);
        assert((2 * idx) * pow2((n - 1 - k) as nat) == idx * pow2((n - k) as nat)) by (nonlinear_arith)
            requires
                pow2((n - k) as nat) == 2 * pow2((n - 1 - k) as nat),
        ;
        assert(spec_fft(s, tw, idx).subrange(0, pow2(k) as int) == spec_fft(x, tw, idx * pow2((n - k) as nat)));
    }
}

/// The short twiddle tree read off the long one holds, below its root, the
/// twiddles of the long tree below the leftmost node of depth `n - k`.
proof fn lemma_short_from_long_subtree<F>(l_tw: Seq<F>, n: nat, k: nat)
    requires
        k <= n,
    ensures
        same_subtree(l_tw, pow2((n - k) as nat) as int, spec_short_from_long(l_tw, n, k), 1, k),
{
    let short = spec_short_from_long(l_tw, n, k);
    assert forall|d: nat, j: int| d < k && 0 <= j < pow2(d) implies #[trigger] tw_node(
        l_tw,
        pow2((n - k) as nat) as int,
        d,
        j,
    ) == tw_node(short, 1, d, j) by {
        let p = pow2(d) + j - 1;
        lemma_pow2_unfold(d + 1);
        lemma_pow2_le(d + 1, k);
        lemma_log2_of_sum(d, j as nat);
        lemma_pow2_adds((n - k) as nat, d);
        assert(0 <= p < pow2(k) - 1);
        assert(log2((p + 1) as nat) == d);
        assert(((n - k + d) as nat) == ((n - k) as nat) + d);
    }
}

fn short_from_long_tw<F: BinaryField>(l_tw: &Vec<F>, n: usize, k: usize) -> (r: Vec<F>)
    requires
        1 <= k <= n,
        pow2(n as nat) <= usize::MAX,
        l_tw.len() == pow2(n as nat) - 1,
    ensures
        r@ == spec_short_from_long(l_tw@, n as nat, k as nat),
{
    proof {
        lemma_pow2_fits(n as nat);
        lemma_pow2_pos(k as nat);
        if k < n {
            lemma_pow2_strictly_increases(k as nat, n as nat);
        }
    }
    let total = pow2_usize(k) - 1;
    let mut s_tw: Vec<F> = Vec::with_capacity(total);
    let mut c: usize = 0;
    while c < total
        invariant
            c <= total,
            s_tw@.len() == c,
        decreases total - c,
    {
        s_tw.push(F::zero());
        c = c + 1;
    }
    let ghost target = spec_short_from_long(l_tw@, n as nat, k as nat);
    proof {
        lemma_pow2_pos((n - k) as nat);
        lemma2_to64();
        lemma_pow2_unfold(k as nat);
        lemma_pow2_unfold(n as nat);
        if n - k < n {
            lemma_pow2_strictly_increases((n - k) as nat, n as nat);
        }
        assert(log2(1) == 0);
    }
    let mut jump: usize = pow2_usize(n - k);
    s_tw.set(0, l_tw[jump - 1]);
    let mut idx: usize = 2;
    let mut i: usize = 1;
    while i < k
        invariant
            1 <= i <= k,
            k <= n,
            n < 64,
            idx == pow2(i as nat),
            pow2(n as nat) <= usize::MAX,
            jump == pow2((n - k + i - 1) as nat),
            total == pow2(k as nat) - 1,
            s_tw@.len() == total,
            l_tw@.len() == pow2(n as nat) - 1,
            target == spec_short_from_long(l_tw@, n as nat, k as nat),
            forall|p: int| 0 <= p < idx - 1 ==> #[trigger] s_tw@[p] == target[p],
        decreases k - i,
    {
        proof {
            lemma_pow2_unfold((n - k + i) as nat);
            lemma_pow2_unfold((i + 1) as nat);
            lemma_pow2_strictly_increases(i as nat, k as nat);
            lemma_pow2_pos((n - k + i) as nat);
            if n - k + i < n {
                lemma_pow2_strictly_increases((n - k + i) as nat, n as nat);
            }
            lemma_pow2_unfold(k as nat);
            if i + 1 < k {
                lemma_pow2_strictly_increases((i + 1) as nat, k as nat);
            }
            lemma_pow2_unfold((n - k + i + 1) as nat);
            if n - k + i + 1 < n {
                lemma_pow2_strictly_increases((n - k + i + 1) as nat, n as nat);
            }
            lemma_pow2_le(i as nat, (n - k + i) as nat);
        }
        jump = jump * 2;
        let take = idx;
        let mut j: usize = 0;
        while j < take
            invariant
                j <= take,
                take == idx,
                1 <= i < k,
                k <= n,
                n < 64,
                idx == pow2(i as nat),
                2 * idx <= pow2(k as nat),
                jump == pow2((n - k + i) as nat),
                jump >= 1,
                pow2(n as nat) <= usize::MAX,
                jump + take <= pow2(n as nat),
                total == pow2(k as nat) - 1,
                s_tw@.len() == total,
                l_tw@.len() == pow2(n as nat) - 1,
                target == spec_short_from_long(l_tw@, n as nat, k as nat),
                forall|p: int| 0 <= p < idx + j - 1 ==> #[trigger] s_tw@[p] == target[p],
            decreases take - j,
        {
            proof {
                lemma_log2_of_sum(i as nat, j as nat);
            }
            let v = l_tw[jump + j - 1];
            s_tw.set(idx + j - 1, v);
            j = j + 1;
        }
        idx = idx + take;
        i = i + 1;
    }
    assert(s_tw@ =~= target);
    s_tw
}

impl<F: BinaryField> ReedSolomonEncoding<F> {
    #[verifier::type_invariant]
    closed spec fn inv(self) -> bool {
        &&& self.log_message_length < self.log_block_length
        &&& pow2(self.log_block_length as nat) <= F::spec_order()
        &&& pow2(self.log_block_length as nat) <= usize::MAX / 2
        &&& self.twiddles@ == spec_twiddles(self.log_block_length as nat, F::spec_zero())
        &&& self.pis@ == spec_pis::<F>(self.log_message_length as nat)
    }

    /// Base-2 logarithm of the message length.
    pub closed spec fn spec_log_message_length(self) -> nat {
        self.log_message_length as nat
    }

    /// Base-2 logarithm of the block length.
    pub closed spec fn spec_log_block_length(self) -> nat {
        self.log_block_length as nat
    }

    /// A code for messages of `message_length` and blocks of `block_length`
    /// symbols (both powers of two, the message shorter).
    pub fn new(message_length: usize, block_length: usize) -> (r: Self)
        requires
            is_pow2(message_length as nat),
            is_pow2(block_length as nat),
            message_length < block_length,
            block_length <= F::spec_order(),
            block_length <= usize::MAX / 2,
        ensures
            pow2(r.spec_log_message_length()) == message_length,
            pow2(r.spec_log_block_length()) == block_length,
    {
        let log_message_length = ilog2(message_length);
        let log_block_length = ilog2(block_length);
        proof {
            lemma_is_pow2_log2(message_length as nat);
            lemma_is_pow2_log2(block_length as nat);
            lemma2_to64();
            if log_block_length == 0 {
                lemma_pow2_pos(log_message_length as nat);
            }
            if log_block_length <= log_message_length {
                if log_block_length < log_message_length {
                    lemma_pow2_strictly_increases(log_block_length as nat, log_message_length as nat);
                }
            }
        }
        let twiddles = compute_twiddles::<F>(log_block_length, None);
        let sks = eval_sk_at_vks::<F>(message_length);
        proof {
            lemma_log2_fits(message_length as nat);
        }
        let pis = compute_pis(message_length, &sks);
        assert(sks@ =~= Seq::new(
            log_message_length as nat + 1,
            |i: int| spec_subspace_poly(i as nat, spec_v::<F>(i as nat)),
        ));
        ReedSolomonEncoding { log_block_length, log_message_length, twiddles, pis }
    }

    /// Number of message symbols.
    pub fn message_length(&self) -> (r: usize)
        ensures
            r == pow2(self.spec_log_message_length()),
    {
        proof {
            use_type_invariant(self);
            lemma_pow2_strictly_increases(
                self.log_message_length as nat,
                self.log_block_length as nat,
            );
        }
        pow2_usize(self.log_message_length)
    }

    /// Number of codeword symbols; a block is longer than a message and fits
    /// the field and the machine.
    pub fn block_length(&self) -> (r: usize)
        ensures
            r == pow2(self.spec_log_block_length()),
            pow2(self.spec_log_message_length()) < r,
            self.spec_log_message_length() < self.spec_log_block_length(),
            r <= F::spec_order(),
            r <= usize::MAX / 2,
    {
        proof {
            use_type_invariant(self);
            lemma_pow2_strictly_increases(
                self.log_message_length as nat,
                self.log_block_length as nat,
            );
        }
        pow2_usize(self.log_block_length)
    }

    pub fn log_message_length(&self) -> (r: usize)
        ensures
            r == self.spec_log_message_length(),
    {
        self.log_message_length
    }

    pub fn log_block_length(&self) -> (r: usize)
        ensures
            r == self.spec_log_block_length(),
    {
        self.log_block_length
    }

    fn short_from_long_twiddles(&self) -> (r: Vec<F>)
        requires
            self.spec_log_message_length() >= 1,
        ensures
            r@ == spec_short_from_long(
                spec_twiddles(self.spec_log_block_length(), F::spec_zero()),
                self.spec_log_block_length(),
                self.spec_log_message_length(),
            ),
    {
        proof {
            use_type_invariant(self);
            lemma_pow2_pos(self.log_block_length as nat);
        }
        short_from_long_tw(&self.twiddles, self.log_block_length, self.log_message_length)
    }

    /// Systematic encoding: interpolate the message on the first
    /// `message_length` points, then evaluate on all `block_length` points.
    pub fn encode(&self, message: &Vec<F>) -> (r: Vec<F>)
        requires
            message@.len() == pow2(self.spec_log_message_length()),
            self.spec_log_message_length() >= 1,
        ensures
            r@ == spec_fft(
                spec_pad(
                    spec_ifft(
                        message@,
                        spec_short_from_long(
                            spec_twiddles(self.spec_log_block_length(), F::spec_zero()),
                            self.spec_log_block_length(),
                            self.spec_log_message_length(),
                        ),
                        1,
                    ),
                    pow2(self.spec_log_block_length()),
                ),
                spec_twiddles(self.spec_log_block_length(), F::spec_zero()),
                1,
            ),
            r@.subrange(0, message@.len() as int) == message@,
    {
        proof {
            use_type_invariant(self);
        }
        let m = self.message_length();
        let b = self.block_length();
        proof {
            lemma_pow2_strictly_increases(
                self.log_message_length as nat,
                self.log_block_length as nat,
            );
            lemma_pow2_pos(self.log_message_length as nat);
            lemma_pow2_is_pow2(self.log_message_length as nat);
            lemma_pow2_is_pow2(self.log_block_length as nat);
        }
        let mut message_coeffs: Vec<F> = Vec::with_capacity(b);
        let mut i: usize = 0;
        while i < b
            invariant
                i <= b,
                m < b,
                message@.len() == m,
                message_coeffs@.len() == i,
                forall|q: int| 0 <= q < i ==> #[trigger] message_coeffs@[q] == if q < m {
                    message@[q]
                } else {
                    F::spec_zero()
                },
            decreases b - i,
        {
            if i < m {
                message_coeffs.push(message[i]);
            } else {
                message_coeffs.push(F::zero());
            }
            i = i + 1;
        }
        let ghost padded = message_coeffs@;
        assert(padded.subrange(0, m as int) =~= message@);
        let s_tw = self.short_from_long_twiddles();
        proof {
            lemma_pow2_pos(self.log_message_length as nat);
            assert(s_tw@.len() + 1 == m);
            assert((1nat + 1) * m == 2 * m) by (nonlinear_arith);
        }
        ifft_twiddles(&mut message_coeffs, 0, m, s_tw.as_slice(), 1);
        let ghost interpolated = spec_ifft(message@, s_tw@, 1);
        proof {
            lemma_fft_len(message@, s_tw@, 1);
            assert(message_coeffs@ =~= spec_pad(interpolated, b as nat));
        }
        fft(&mut message_coeffs, self.twiddles.as_slice(), None);
        proof {
            let k = self.spec_log_message_length();
            let n = self.spec_log_block_length();
            let l_tw = spec_twiddles(n, F::spec_zero());
            let short = spec_short_from_long(l_tw, n, k);
            lemma_fft_of_padded(interpolated, k, n, l_tw, 1);
            lemma_short_from_long_subtree(l_tw, n, k);
            lemma_fft_relocate(interpolated, l_tw, pow2((n - k) as nat) as int, short, 1, k);
            lemma_pow2_is_pow2(k);
            lemma_fft_undoes_ifft(message@, short, 1);
        }
        message_coeffs
    }

    /// Non-systematic encoding of the segment `v[start .. start + block]`
    /// whose first `message_length` symbols hold the message coefficients.
    pub fn encode_non_systematic_at(&self, v: &mut Vec<F>, start: usize)
        requires
            start + pow2(self.spec_log_block_length()) <= old(v).len(),
        ensures
            final(v)@ == splice(
                old(v)@,
                start as int,
                pow2(self.spec_log_block_length()) as int,
                spec_fft(
                    spec_scale_message(
                        old(v)@.subrange(
                            start as int,
                            start + pow2(self.spec_log_block_length()),
                        ),
                        spec_pis::<F>(self.spec_log_message_length()),
                    ),
                    spec_twiddles(self.spec_log_block_length(), F::spec_zero()),
                    1,
                ),
            ),
    {
        proof {
            use_type_invariant(self);
        }
        let m = self.message_length();
        let b = self.block_length();
        proof {
            lemma_pow2_strictly_increases(
                self.log_message_length as nat,
                self.log_block_length as nat,
            );
            lemma_pow2_is_pow2(self.log_block_length as nat);
        }
        let ghost seg = old(v)@.subrange(start as int, start + b);
        let mut i: usize = 0;
        while i < m
            invariant
                i <= m,
                m < b,
                start + b <= v.len(),
                v.len() == old(v).len(),
                self.pis@ == spec_pis::<F>(self.log_message_length as nat),
                m == pow2(self.log_message_length as nat),
                seg == old(v)@.subrange(start as int, start + b),
                forall|q: int| 0 <= q < start || start + i <= q < v.len() ==> #[trigger] v@[q] == old(v)@[q],
                forall|q: int| start <= q < start + i ==> #[trigger] v@[q] == F::spec_mul(old(v)@[q], self.pis@[q - start]),
            decreases m - i,
        {
            let x = v[start + i];
            let p = self.pis[i];
            v.set(start + i, x.mul(p));
            i = i + 1;
        }
        let ghost scaled = spec_scale_message(seg, spec_pis::<F>(self.log_message_length as nat));
        assert(v@.subrange(start as int, start + b) =~= scaled);
        proof {
            assert((1nat + 1) * b == 2 * b) by (nonlinear_arith);
        }
        fft_twiddles(v, start, b, self.twiddles.as_slice(), 1);
        assert(v@ =~= splice(old(v)@, start as int, b as int, spec_fft(scaled, self.twiddles@, 1)));
    }

    /// Non-systematic encoding in place: scale the first `message_length`
    /// coefficients by the basis factors, then evaluate on all points.
    pub fn encode_non_systematic(&self, message: &mut Vec<F>)
        requires
            old(message)@.len() == pow2(self.spec_log_block_length()),
        ensures
            final(message)@ == spec_fft(
                spec_scale_message(old(message)@, spec_pis::<F>(self.spec_log_message_length())),
                spec_twiddles(self.spec_log_block_length(), F::spec_zero()),
                1,
            ),
    {
        self.encode_non_systematic_at(message, 0);
        proof {
            let b = pow2(self.spec_log_block_length());
            assert(old(message)@.subrange(0, b as int) =~= old(message)@);
            lemma_fft_len(
                spec_scale_message(old(message)@, spec_pis::<F>(self.spec_log_message_length())),
                spec_twiddles(self.spec_log_block_length(), F::spec_zero()),
                1,
            );
        }
        assert(message@ =~= spec_fft(
            spec_scale_message(old(message)@, spec_pis::<F>(self.spec_log_message_length())),
            spec_twiddles(self.spec_log_block_length(), F::spec_zero()),
            1,
        ));
    }
}

/// The message coefficients `s[i]` scaled by `pis[i]` where `pis` has entries.
pub open spec fn spec_scale_message<F: BinaryField>(s: Seq<F>, pis: Seq<F>) -> Seq<F> {
    Seq::new(s.len(), |i: int| if i < pis.len() { F::spec_mul(s[i], pis[i]) } else { s[i] })
}

/// Scaling by the factors is linear.
proof fn lemma_scale_message_linear<F: BinaryField>(a: Seq<F>, b: Seq<F>, l: F, pis: Seq<F>)
    requires
        a.len() == b.len(),
    ensures
        spec_scale_message(spec_lin(a, b, l), pis) == spec_lin(spec_scale_message(a, pis), spec_scale_message(b, pis), l),
{
    let lhs = spec_scale_message(spec_lin(a, b, l), pis);
    let rhs = spec_lin(spec_scale_message(a, pis), spec_scale_message(b, pis), l);
    assert forall|i: int| 0 <= i < a.len() implies lhs[i] == rhs[i] by {
        if i < pis.len() {
            let p = pis[i];
            F::lemma_mul_comm(F::spec_add(a[i], F::spec_mul(l, b[i])), p);
            F::lemma_mul_distrib(p, a[i], F::spec_mul(l, b[i]));
            F::lemma_mul_comm(p, a[i]);
            F::lemma_mul_assoc(p, l, b[i]);
            F::lemma_mul_comm(p, l);
            F::lemma_mul_assoc(l, p, b[i]);
            F::lemma_mul_comm(p, b[i]);
        }
    }
    assert(lhs =~= rhs);
}

/// The non-systematic encoding is linear: the codeword of `a + l b` is the
/// codeword of `a` plus `l` times the codeword of `b`.
pub proof fn lemma_encode_non_systematic_linear<F: BinaryField>(
    a: Seq<F>,
    b: Seq<F>,
    l: F,
    log_message_length: nat,
    log_block_length: nat,
)
    requires
        a.len() == b.len(),
    ensures
        ({
            let pis = spec_pis::<F>(log_message_length);
            let tw = spec_twiddles(log_block_length, F::spec_zero());
            spec_fft(spec_scale_message(spec_lin(a, b, l), pis), tw, 1) == spec_lin(
                spec_fft(spec_scale_message(a, pis), tw, 1),
                spec_fft(spec_scale_message(b, pis), tw, 1),
                l,
            )
        }),
{
    let pis = spec_pis::<F>(log_message_length);
    let tw = spec_twiddles(log_block_length, F::spec_zero());
    lemma_scale_message_linear(a, b, l, pis);
    lemma_fft_linear(spec_scale_message(a, pis), spec_scale_message(b, pis), l, tw, 1);
}

} // verus!
