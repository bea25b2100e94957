//! Associativity of multiplication in GF(2^16) and GF(2^32), and the inverse
//! of the element 6 in both fields.
//!
//! A field product is the carry-less product reduced modulo the field
//! polynomial. The proof works on machine words: the reduction XORs in a
//! multiple of the polynomial and kills every such multiple, so multiplying by
//! `x` (the element 2) commutes with multiplication; associativity then
//! follows on single bits by induction and on all words by linearity.
use crate::binary_field::{
    clmul32, lemma_bv32, lemma_clmul32_one, lemma_clmul32_tail, lemma_clmul32_unit, lemma_clmul32_xor_left,
    lemma_clmul32_xor_right, lemma_clmul32_zero, lemma_reduce32_small, lemma_reduce32_xor, low_mask64, mul32,
    reduce32_from, reduce32_step, IRREDUCIBLE_32, clmul16, lemma_bv16, lemma_clmul16_one, lemma_clmul16_tail, lemma_clmul16_unit, lemma_clmul16_xor_left,
    lemma_clmul16_xor_right, lemma_clmul16_zero, lemma_reduce16_small, lemma_reduce16_xor, low_mask32, mul16,
    reduce16_from, reduce16_step, IRREDUCIBLE_16, pow16, pow16_acc, pow32, pow32_acc,
};
use vstd::prelude::*;

verus! {

// ---------------------------------------------------------------------------
// GF(2^16)
// ---------------------------------------------------------------------------

/// The reduction of a 32-bit word modulo the GF(2^16) polynomial.
pub open spec fn red16(r: u32) -> u32 {
    reduce16_from(r, 31)
}

/// The field product of two 16-bit words, as a 32-bit word.
pub open spec fn m16(a: u32, b: u32) -> u32 {
    red16(clmul16(a, b, 16))
}

/// The quotient: the bits `j` such that the reduction of `r` from bit `i`
/// down XORs in the polynomial shifted by `j`.
pub open spec fn quo16(r: u32, i: int) -> u32
    decreases i,
{
    if i < 16 {
        0
    } else {
        let t: u32 = if r & (1u32 << (i as u32)) != 0 {
            1u32 << ((i - 16) as u32)
        } else {
            0
        };
        t ^ quo16(reduce16_step(r, i as u32), i - 1)
    }
}

/// The word-level facts the GF(2^16) associativity proof rests on.
#[verifier::rlimit(100)]
proof fn lemma_bv16_assoc(r: u32, i: u32, m: u32, t: u32, a: u32, b: u32, c: u32, p: u32, q: u32)
    by (bit_vector)
    ensures
        ((a ^ b) ^ c) == (a ^ (b ^ c)),
        (a ^ b) == (b ^ a),
        (a ^ 0u32) == a,
        (0u32 ^ a) == a,
        (a ^ a) == 0u32,
        16 <= i < 32 && (i == 31 || r < (1u32 << ((i + 1) as u32))) ==> reduce16_step(r, i) < (1u32 << i),
        16 <= i < 32 && r < (1u32 << i) ==> r & (1u32 << i) == 0,
        m < 16 && q < (1u32 << m) ==> (q ^ (1u32 << m)) < (1u32 << ((m + 1) as u32)) && q < (1u32 << ((m
            + 1) as u32)),
        m < 32 && t < 32 ==> (((((1u32 << m) >> t) & 1) == 1) == (t == m)),
        m < 16 && 16 + m < i && i < 32 ==> ((IRREDUCIBLE_16 << m) & (1u32 << i)) == 0,
        m < 16 ==> ((IRREDUCIBLE_16 << m) & (1u32 << ((16 + m) as u32))) != 0,
        t < 32 ==> ((a << 1u32) << t) == ((a << t) << 1u32),
        ((a ^ b) << 1u32) == ((a << 1u32) ^ (b << 1u32)),
        t < 31 ==> ((((b << 1u32) >> ((t + 1) as u32)) & 1) == ((b >> t) & 1)),
        (((b << 1u32) >> 0u32) & 1) == 0,
        t < 31 ==> (a << ((t + 1) as u32)) == ((a << t) << 1u32),
        t < 16 && a < 0x10000 && p < (1u32 << ((15 + t) as u32)) ==> (p ^ (a << t)) < (1u32 << ((16 + t) as u32))
            && p < (1u32 << ((16 + t) as u32)),
        p < (1u32 << m) && m <= t && t < 32 ==> p < (1u32 << t),
        a < 0x10000 ==> ((a as u16) as u32) == a,
        a < 0x10000 ==> (a << 1u32) < (1u32 << 17u32),
        m < 16 ==> (1u32 << m) < 0x10000,
        (1u32 << 0u32) == 1u32,
        (1u32 << 1u32) == 2u32,
        (1u32 << 15u32) == 0x8000u32,
        (1u32 << 16u32) == 0x10000u32,
        (a << 0u32) == a,
        q < 2 ==> (q == 0 || q == 1),
        q < (1u32 << 15u32) ==> (q >> 15u32) == 0 && (q << 1u32) < 0x10000,
        (0u32 << 1u32) == 0,
{
}

/// The reduction leaves a word below `2^16`.
proof fn lemma_red16_bound_from(r: u32, i: int)
    requires
        15 <= i <= 31,
        i == 31 || r < (1u32 << ((i + 1) as u32)),
    ensures
        reduce16_from(r, i) < 0x10000,
    decreases i,
{
    lemma_bv16_assoc(r, i as u32, 0, 0, 0, 0, 0, 0, 0);
    if i >= 16 {
        lemma_red16_bound_from(reduce16_step(r, i as u32), i - 1);
    }
}

proof fn lemma_red16_bound(r: u32)
    ensures
        red16(r) < 0x10000,
{
    lemma_red16_bound_from(r, 31);
}

/// The carry-less product with a single bit `m` is a shift.
proof fn lemma_clmul16_single(a: u32, m: u32, k: nat)
    requires
        m < 32,
        k <= 32,
    ensures
        clmul16(a, 1u32 << m, k) == if (m as nat) < k {
            a << m
        } else {
            0u32
        },
    decreases k,
{
    if k > 0 {
        lemma_clmul16_single(a, m, (k - 1) as nat);
        let kk = (k - 1) as u32;
        lemma_bv16_assoc(0, 0, m, kk, a << m, 0, 0, 0, 0);
    }
}

/// The reduction XORs in a multiple of the polynomial: `quo16` times it.
proof fn lemma_red16_quo(r: u32, i: int)
    requires
        15 <= i <= 31,
    ensures
        reduce16_from(r, i) == r ^ clmul16(IRREDUCIBLE_16, quo16(r, i), 16),
        quo16(r, i) < (1u32 << ((i - 15) as u32)),
    decreases i,
{
    let pp = IRREDUCIBLE_16;
    if i == 15 {
        lemma_clmul16_zero(pp, 16);
        lemma_bv16_assoc(0, 0, 0, 0, r, 0, 0, 0, 0);
    } else {
        let ii = i as u32;
        let m = (i - 16) as u32;
        let bit = r & (1u32 << ii) != 0;
        let t: u32 = if bit {
            1u32 << m
        } else {
            0
        };
        let r2 = reduce16_step(r, ii);
        lemma_red16_quo(r2, i - 1);
        let q2 = quo16(r2, i - 1);
        assert(quo16(r, i) == t ^ q2);
        lemma_clmul16_xor_right(pp, t, q2, 16);
        let x = clmul16(pp, t, 16);
        let y = clmul16(pp, q2, 16);
        if bit {
            lemma_clmul16_single(pp, m, 16);
            assert(x == pp << m);
            assert(r2 == r ^ x);
        } else {
            lemma_clmul16_zero(pp, 16);
            assert(x == 0);
            assert(r2 == r);
        }
        lemma_bv16_assoc(0, 0, 0, 0, r, x, y, 0, 0);
        lemma_bv16_assoc(0, 0, 0, 0, y, 0, 0, 0, 0);
        lemma_bv16_assoc(0, 0, 0, 0, r, 0, 0, 0, 0);
        lemma_bv16_assoc(0, 0, m, 0, q2, 0, 0, 0, q2);
        lemma_bv16_assoc(0, 0, 0, 0, t, q2, 0, 0, 0);
        assert(((m + 1) as u32) == ((i - 15) as u32));
        assert(q2 < (1u32 << m));
    }
}

/// Bits above `j` are left alone by the reduction.
proof fn lemma_red16_high_zero(r: u32, j: int, i: int)
    requires
        15 <= j <= 30,
        j <= i <= 31,
        r < (1u32 << ((j + 1) as u32)),
    ensures
        reduce16_from(r, i) == reduce16_from(r, j),
        quo16(r, i) == quo16(r, j),
    decreases i,
{
    if i > j {
        let ii = i as u32;
        lemma_bv16_assoc(r, ii, 0, 0, 0, 0, 0, r, 0);
        lemma_bv16_assoc(0, 0, ((j + 1) as u32), ii, 0, 0, 0, r, 0);
        assert(r < (1u32 << ii));
        assert(r & (1u32 << ii) == 0);
        lemma_bv16_assoc(0, 0, 0, 0, quo16(r, i - 1), 0, 0, 0, 0);
        lemma_red16_high_zero(r, j, i - 1);
    }
}

/// The reduction of the polynomial shifted by `m` is zero.
proof fn lemma_red16_pm(m: u32, i: int)
    requires
        m < 16,
        16 + m <= i <= 31,
    ensures
        reduce16_from(IRREDUCIBLE_16 << m, i) == 0,
    decreases i,
{
    let x = IRREDUCIBLE_16 << m;
    lemma_bv16_assoc(0, i as u32, m, 0, x, 0, 0, 0, 0);
    if i > 16 + m {
        lemma_red16_pm(m, i - 1);
    } else {
        assert(((i - 16) as u32) == m);
        assert(reduce16_step(x, i as u32) == 0);
        lemma_reduce16_small(0, i - 1);
    }
}

proof fn lemma_red16_clmul_p_prefix(q: u32, k: nat)
    requires
        q < 0x10000,
        k <= 16,
    ensures
        red16(clmul16(IRREDUCIBLE_16, q & low_mask32(k as u32), 16)) == 0,
    decreases k,
{
    let pp = IRREDUCIBLE_16;
    if k == 0 {
        lemma_bv16(q, 0, 0, 0, 0, 0, 0, 0, false, false, 0, 0);
        lemma_clmul16_zero(pp, 16);
        lemma_reduce16_small(0, 31);
    } else {
        let kk = (k - 1) as u32;
        lemma_red16_clmul_p_prefix(q, (k - 1) as nat);
        lemma_bv16(q, 0, kk, 0, 0, 0, 0, 0, false, false, 0, 0);
        assert((kk + 1) as u32 == k as u32);
        let lo = q & low_mask32(kk);
        let bit = ((q >> kk) & 1) == 1;
        let t: u32 = if bit {
            1u32 << kk
        } else {
            0u32
        };
        lemma_clmul16_xor_right(pp, lo, t, 16);
        lemma_reduce16_xor(clmul16(pp, lo, 16), clmul16(pp, t, 16), 31);
        if bit {
            lemma_clmul16_single(pp, kk, 16);
            lemma_red16_pm(kk, 31);
        } else {
            lemma_clmul16_zero(pp, 16);
            lemma_reduce16_small(0, 31);
        }
        lemma_bv16_assoc(0, 0, 0, 0, 0, 0, 0, 0, 0);
    }
}

/// The reduction kills every multiple of the polynomial by a 16-bit word.
proof fn lemma_red16_clmul_p(q: u32)
    requires
        q < 0x10000,
    ensures
        red16(clmul16(IRREDUCIBLE_16, q, 16)) == 0,
{
    lemma_red16_clmul_p_prefix(q, 16);
    lemma_bv16(q, 0, 0, 0, 0, 0, 0, 0, false, false, 0, 0);
}

/// Shifting the first factor shifts the carry-less product.
proof fn lemma_clmul16_shl_left(a: u32, b: u32, k: nat)
    requires
        k <= 32,
    ensures
        clmul16(a << 1u32, b, k) == clmul16(a, b, k) << 1u32,
    decreases k,
{
    if k == 0 {
        lemma_bv16_assoc(0, 0, 0, 0, 0, 0, 0, 0, 0);
    } else {
        let kk = (k - 1) as u32;
        lemma_clmul16_shl_left(a, b, (k - 1) as nat);
        lemma_bv16_assoc(0, 0, 0, kk, a, clmul16(a, b, (k - 1) as nat), 0, 0, 0);
        lemma_bv16_assoc(0, 0, 0, kk, clmul16(a, b, (k - 1) as nat), a << kk, 0, 0, 0);
    }
}

/// Shifting the second factor shifts the carry-less product.
proof fn lemma_clmul16_shl_right(a: u32, b: u32, k: nat)
    requires
        k <= 31,
    ensures
        clmul16(a, b << 1u32, k + 1) == clmul16(a, b, k) << 1u32,
    decreases k,
{
    if k == 0 {
        lemma_bv16_assoc(0, 0, 0, 0, 0, b, 0, 0, 0);
        assert(clmul16(a, b << 1u32, 0) == 0);
        assert((((b << 1u32) >> 0u32) & 1) == 0);
        assert(((1nat - 1) as u32) == 0u32);
        assert(clmul16(a, b << 1u32, 1) == 0);
    } else {
        let kk = (k - 1) as u32;
        lemma_clmul16_shl_right(a, b, (k - 1) as nat);
        let prev = clmul16(a, b, (k - 1) as nat);
        lemma_bv16_assoc(0, 0, 0, kk, a, b, 0, 0, 0);
        lemma_bv16_assoc(0, 0, 0, kk, prev, a << kk, 0, 0, 0);
        assert(((kk + 1) as u32) == (k as u32));
    }
}

/// The carry-less product of 16-bit words stays below `2^(15 + k)`.
proof fn lemma_clmul16_bound(a: u32, b: u32, k: nat)
    requires
        a < 0x10000,
        k <= 16,
    ensures
        clmul16(a, b, k) < (1u32 << ((15 + k) as u32)),
    decreases k,
{
    if k == 0 {
        lemma_bv16_assoc(0, 0, 0, 0, 0, 0, 0, 0, 0);
    } else {
        let kk = (k - 1) as u32;
        lemma_clmul16_bound(a, b, (k - 1) as nat);
        lemma_bv16_assoc(0, 0, 0, kk, a, 0, 0, clmul16(a, b, (k - 1) as nat), 0);
        assert(((16 + kk) as u32) == ((15 + k) as u32));
    }
}

/// Facts about products with 0, 1 and the bound of products.
proof fn lemma_m16_basics(a: u32, b: u32)
    requires
        b < 0x10000,
    ensures
        m16(a, b) < 0x10000,
        m16(0, b) == 0,
        m16(1, b) == b,
{
    lemma_red16_bound(clmul16(a, b, 16));
    lemma_clmul16_zero(b, 16);
    lemma_reduce16_small(0, 31);
    lemma_clmul16_unit(0, b, 16);
    lemma_bv16(b, 0, 0, 0, 0, 0, 0, 0, false, false, 0, 0);
    lemma_bv16_assoc(0, 0, 0, 0, b, 0, 0, 0, 0);
    lemma_reduce16_small(b, 31);
}

/// The product is linear in its first factor.
proof fn lemma_m16_xor_left(a1: u32, a2: u32, b: u32)
    ensures
        m16(a1 ^ a2, b) == m16(a1, b) ^ m16(a2, b),
{
    lemma_clmul16_xor_left(a1, a2, b, 16);
    lemma_reduce16_xor(clmul16(a1, b, 16), clmul16(a2, b, 16), 31);
}

/// Multiplying by `x` commutes with multiplication.
proof fn lemma_m16_times_x(a: u32, b: u32)
    requires
        a < 0x10000,
        b < 0x10000,
    ensures
        m16(m16(2, a), b) == m16(2, m16(a, b)),
{
    let pp = IRREDUCIBLE_16;
    // m16(2, a) is the reduction of a << 1
    lemma_clmul16_unit(1, a, 16);
    lemma_bv16(a, 0, 0, 0, 0, 0, 0, 0, false, false, 0, 0);
    lemma_bv16_assoc(0, 0, 0, 0, a, 0, 0, 0, 0);
    let a1 = a << 1u32;
    assert(clmul16(2, a, 16) == a1);
    lemma_red16_quo(a1, 16);
    lemma_red16_high_zero(a1, 16, 31);
    let q = quo16(a1, 16);
    assert(q < 2) by {
        lemma_bv16_assoc(0, 0, 0, 0, 0, 0, 0, 0, 0);
    }
    let x = red16(a1);
    let pq = clmul16(pp, q, 16);
    assert(x == a1 ^ pq);
    lemma_clmul16_xor_left(a1, pq, b, 16);
    lemma_clmul16_shl_left(a, b, 16);
    let c = clmul16(a, b, 16);
    lemma_reduce16_xor(c << 1u32, clmul16(pq, b, 16), 31);
    lemma_bv16_assoc(0, 0, 0, 0, 0, 0, 0, 0, q);
    if q == 0 {
        lemma_clmul16_zero(pp, 16);
        lemma_clmul16_zero(b, 16);
        lemma_reduce16_small(0, 31);
    } else {
        lemma_clmul16_one(pp, 16);
        lemma_red16_clmul_p(b);
    }
    lemma_bv16_assoc(0, 0, 0, 0, red16(c << 1u32), 0, 0, 0, 0);
    assert(m16(x, b) == red16(c << 1u32));
    // m16(2, m16(a, b)) is the reduction of red16(c) << 1
    lemma_clmul16_bound(a, b, 16);
    lemma_red16_quo(c, 30);
    lemma_red16_high_zero(c, 30, 31);
    let q1 = quo16(c, 30);
    let y = red16(c);
    lemma_red16_bound(c);
    lemma_clmul16_unit(1, y, 16);
    lemma_bv16(y, 0, 0, 0, 0, 0, 0, 0, false, false, 0, 0);
    lemma_bv16_assoc(0, 0, 0, 0, 0, 0, 0, 0, q1);
    lemma_clmul16_tail(pp, q1, 15, 16);
    lemma_clmul16_shl_right(pp, q1, 15);
    let pq1 = clmul16(pp, q1, 16);
    lemma_bv16_assoc(0, 0, 0, 0, c, pq1, 0, 0, 0);
    assert(y << 1u32 == (c << 1u32) ^ clmul16(pp, q1 << 1u32, 16));
    lemma_reduce16_xor(c << 1u32, clmul16(pp, q1 << 1u32, 16), 31);
    lemma_red16_clmul_p(q1 << 1u32);
}

/// Associativity with a single bit as the first factor.
proof fn lemma_m16_assoc_unit(k: u32, b: u32, c: u32)
    requires
        k < 16,
        b < 0x10000,
        c < 0x10000,
    ensures
        m16(m16(1u32 << k, b), c) == m16(1u32 << k, m16(b, c)),
    decreases k,
{
    lemma_bv16_assoc(0, 0, 0, 0, 0, 0, 0, 0, 0);
    lemma_m16_basics(b, c);
    if k == 0 {
        lemma_m16_basics(0, b);
        lemma_m16_basics(0, m16(b, c));
    } else {
        let j = (k - 1) as u32;
        let e = 1u32 << j;
        lemma_m16_assoc_unit(j, b, c);
        // 1 << k is x times 1 << j
        lemma_bv16_assoc(0, 0, j, 0, 0, 0, 0, 0, 0);
        lemma_bv16_assoc(0, 0, 0, j, 1, 0, 0, 0, 0);
        assert(((j + 1) as u32) == k);
        lemma_clmul16_unit(1, e, 16);
        lemma_bv16(e, 0, 0, 0, 0, 0, 0, 0, false, false, 0, 0);
        lemma_bv16_assoc(0, 0, k, 0, 0, 0, 0, 0, 0);
        lemma_reduce16_small(1u32 << k, 31);
        assert(m16(2, e) == 1u32 << k);
        let eb = m16(e, b);
        let bc = m16(b, c);
        lemma_m16_basics(e, b);
        lemma_m16_times_x(e, b);
        lemma_m16_times_x(eb, c);
        lemma_m16_times_x(e, bc);
    }
}

/// Associativity for the low `k` bits of the first factor.
proof fn lemma_m16_assoc_prefix(a: u32, b: u32, c: u32, k: nat)
    requires
        a < 0x10000,
        b < 0x10000,
        c < 0x10000,
        k <= 16,
    ensures
        m16(m16(a & low_mask32(k as u32), b), c) == m16(a & low_mask32(k as u32), m16(b, c)),
    decreases k,
{
    lemma_m16_basics(b, c);
    if k == 0 {
        lemma_bv16(a, 0, 0, 0, 0, 0, 0, 0, false, false, 0, 0);
        lemma_m16_basics(0, b);
        lemma_m16_basics(0, m16(b, c));
        lemma_m16_basics(0, c);
    } else {
        let kk = (k - 1) as u32;
        lemma_m16_assoc_prefix(a, b, c, (k - 1) as nat);
        lemma_bv16(a, 0, kk, 0, 0, 0, 0, 0, false, false, 0, 0);
        assert((kk + 1) as u32 == k as u32);
        let lo = a & low_mask32(kk);
        let bit = ((a >> kk) & 1) == 1;
        let t: u32 = if bit {
            1u32 << kk
        } else {
            0u32
        };
        lemma_m16_xor_left(lo, t, b);
        lemma_m16_xor_left(m16(lo, b), m16(t, b), c);
        lemma_m16_xor_left(lo, t, m16(b, c));
        if bit {
            lemma_m16_assoc_unit(kk, b, c);
        } else {
            lemma_m16_basics(0, b);
            lemma_m16_basics(0, m16(b, c));
            lemma_m16_basics(0, c);
        }
    }
}

/// Multiplication in GF(2^16) is associative.
pub proof fn lemma_mul16_assoc(a: u16, b: u16, c: u16)
    ensures
        mul16(mul16(a, b), c) == mul16(a, mul16(b, c)),
{
    let x = a as u32;
    let y = b as u32;
    let z = c as u32;
    lemma_m16_assoc_prefix(x, y, z, 16);
    lemma_bv16(x, 0, 0, 0, 0, 0, 0, 0, false, false, 0, 0);
    lemma_m16_basics(x, y);
    lemma_m16_basics(y, z);
    lemma_bv16_assoc(0, 0, 0, 0, m16(x, y), 0, 0, 0, 0);
    lemma_bv16_assoc(0, 0, 0, 0, m16(y, z), 0, 0, 0, 0);
    assert(mul16(a, b) as u32 == m16(x, y));
    assert(mul16(b, c) as u32 == m16(y, z));
}

// ---------------------------------------------------------------------------
// GF(2^32)
// ---------------------------------------------------------------------------

/// The reduction of a 64-bit word modulo the GF(2^32) polynomial.
pub open spec fn red32(r: u64) -> u64 {
    reduce32_from(r, 63)
}

/// The field product of two 32-bit words, as a 64-bit word.
pub open spec fn m32(a: u64, b: u64) -> u64 {
    red32(clmul32(a, b, 32))
}

/// The quotient: the bits `j` such that the reduction of `r` from bit `i`
/// down XORs in the polynomial shifted by `j`.
pub open spec fn quo32(r: u64, i: int) -> u64
    decreases i,
{
    if i < 32 {
        0
    } else {
        let t: u64 = if r & (1u64 << (i as u64)) != 0 {
            1u64 << ((i - 32) as u64)
        } else {
            0
        };
        t ^ quo32(reduce32_step(r, i as u64), i - 1)
    }
}

/// The word-level facts the GF(2^32) associativity proof rests on.
#[verifier::rlimit(100)]
proof fn lemma_bv32_assoc(r: u64, i: u64, m: u64, t: u64, a: u64, b: u64, c: u64, p: u64, q: u64)
    by (bit_vector)
    ensures
        ((a ^ b) ^ c) == (a ^ (b ^ c)),
        (a ^ b) == (b ^ a),
        (a ^ 0u64) == a,
        (0u64 ^ a) == a,
        (a ^ a) == 0u64,
        32 <= i < 64 && (i == 63 || r < (1u64 << ((i + 1) as u64))) ==> reduce32_step(r, i) < (1u64 << i),
        32 <= i < 64 && r < (1u64 << i) ==> r & (1u64 << i) == 0,
        m < 32 && q < (1u64 << m) ==> (q ^ (1u64 << m)) < (1u64 << ((m + 1) as u64)) && q < (1u64 << ((m
            + 1) as u64)),
        m < 64 && t < 64 ==> (((((1u64 << m) >> t) & 1) == 1) == (t == m)),
        m < 32 && 32 + m < i && i < 64 ==> ((IRREDUCIBLE_32 << m) & (1u64 << i)) == 0,
        m < 32 ==> ((IRREDUCIBLE_32 << m) & (1u64 << ((32 + m) as u64))) != 0,
        t < 64 ==> ((a << 1u64) << t) == ((a << t) << 1u64),
        ((a ^ b) << 1u64) == ((a << 1u64) ^ (b << 1u64)),
        t < 63 ==> ((((b << 1u64) >> ((t + 1) as u64)) & 1) == ((b >> t) & 1)),
        (((b << 1u64) >> 0u64) & 1) == 0,
        t < 63 ==> (a << ((t + 1) as u64)) == ((a << t) << 1u64),
        t < 32 && a < 0x100000000 && p < (1u64 << ((31 + t) as u64)) ==> (p ^ (a << t)) < (1u64 << ((32 + t) as u64))
            && p < (1u64 << ((32 + t) as u64)),
        p < (1u64 << m) && m <= t && t < 64 ==> p < (1u64 << t),
        a < 0x100000000 ==> ((a as u32) as u64) == a,
        a < 0x100000000 ==> (a << 1u64) < (1u64 << 33u64),
        m < 32 ==> (1u64 << m) < 0x100000000,
        (1u64 << 0u64) == 1u64,
        (1u64 << 1u64) == 2u64,
        (1u64 << 31u64) == 0x80000000u64,
        (1u64 << 32u64) == 0x100000000u64,
        (a << 0u64) == a,
        q < 2 ==> (q == 0 || q == 1),
        q < (1u64 << 31u64) ==> (q >> 31u64) == 0 && (q << 1u64) < 0x100000000,
        (0u64 << 1u64) == 0,
{
}

/// The reduction leaves a word below `2^32`.
proof fn lemma_red32_bound_from(r: u64, i: int)
    requires
        31 <= i <= 63,
        i == 63 || r < (1u64 << ((i + 1) as u64)),
    ensures
        reduce32_from(r, i) < 0x100000000,
    decreases i,
{
    lemma_bv32_assoc(r, i as u64, 0, 0, 0, 0, 0, 0, 0);
    if i >= 32 {
        lemma_red32_bound_from(reduce32_step(r, i as u64), i - 1);
    }
}

proof fn lemma_red32_bound(r: u64)
    ensures
        red32(r) < 0x100000000,
{
    lemma_red32_bound_from(r, 63);
}

/// The carry-less product with a single bit `m` is a shift.
proof fn lemma_clmul32_single(a: u64, m: u64, k: nat)
    requires
        m < 64,
        k <= 64,
    ensures
        clmul32(a, 1u64 << m, k) == if (m as nat) < k {
            a << m
        } else {
            0u64
        },
    decreases k,
{
    if k > 0 {
        lemma_clmul32_single(a, m, (k - 1) as nat);
        let kk = (k - 1) as u64;
        lemma_bv32_assoc(0, 0, m, kk, a << m, 0, 0, 0, 0);
    }
}

/// The reduction XORs in a multiple of the polynomial: `quo32` times it.
proof fn lemma_red32_quo(r: u64, i: int)
    requires
        31 <= i <= 63,
    ensures
        reduce32_from(r, i) == r ^ clmul32(IRREDUCIBLE_32, quo32(r, i), 32),
        quo32(r, i) < (1u64 << ((i - 31) as u64)),
    decreases i,
{
    let pp = IRREDUCIBLE_32;
    if i == 31 {
        lemma_clmul32_zero(pp, 32);
        lemma_bv32_assoc(0, 0, 0, 0, r, 0, 0, 0, 0);
    } else {
        let ii = i as u64;
        let m = (i - 32) as u64;
        let bit = r & (1u64 << ii) != 0;
        let t: u64 = if bit {
            1u64 << m
        } else {
            0
        };
        let r2 = reduce32_step(r, ii);
        lemma_red32_quo(r2, i - 1);
        let q2 = quo32(r2, i - 1);
        assert(quo32(r, i) == t ^ q2);
        lemma_clmul32_xor_right(pp, t, q2, 32);
        let x = clmul32(pp, t, 32);
        let y = clmul32(pp, q2, 32);
        if bit {
            lemma_clmul32_single(pp, m, 32);
            assert(x == pp << m);
            assert(r2 == r ^ x);
        } else {
            lemma_clmul32_zero(pp, 32);
            assert(x == 0);
            assert(r2 == r);
        }
        lemma_bv32_assoc(0, 0, 0, 0, r, x, y, 0, 0);
        lemma_bv32_assoc(0, 0, 0, 0, y, 0, 0, 0, 0);
        lemma_bv32_assoc(0, 0, 0, 0, r, 0, 0, 0, 0);
        lemma_bv32_assoc(0, 0, m, 0, q2, 0, 0, 0, q2);
        lemma_bv32_assoc(0, 0, 0, 0, t, q2, 0, 0, 0);
        assert(((m + 1) as u64) == ((i - 31) as u64));
        assert(q2 < (1u64 << m));
    }
}

/// Bits above `j` are left alone by the reduction.
proof fn lemma_red32_high_zero(r: u64, j: int, i: int)
    requires
        31 <= j <= 62,
        j <= i <= 63,
        r < (1u64 << ((j + 1) as u64)),
    ensures
        reduce32_from(r, i) == reduce32_from(r, j),
        quo32(r, i) == quo32(r, j),
    decreases i,
{
    if i > j {
        let ii = i as u64;
        lemma_bv32_assoc(r, ii, 0, 0, 0, 0, 0, r, 0);
        lemma_bv32_assoc(0, 0, ((j + 1) as u64), ii, 0, 0, 0, r, 0);
        assert(r < (1u64 << ii));
        assert(r & (1u64 << ii) == 0);
        lemma_bv32_assoc(0, 0, 0, 0, quo32(r, i - 1), 0, 0, 0, 0);
        lemma_red32_high_zero(r, j, i - 1);
    }
}

/// The reduction of the polynomial shifted by `m` is zero.
proof fn lemma_red32_pm(m: u64, i: int)
    requires
        m < 32,
        32 + m <= i <= 63,
    ensures
        reduce32_from(IRREDUCIBLE_32 << m, i) == 0,
    decreases i,
{
    let x = IRREDUCIBLE_32 << m;
    lemma_bv32_assoc(0, i as u64, m, 0, x, 0, 0, 0, 0);
    if i > 32 + m {
        lemma_red32_pm(m, i - 1);
    } else {
        assert(((i - 32) as u64) == m);
        assert(reduce32_step(x, i as u64) == 0);
        lemma_reduce32_small(0, i - 1);
    }
}

proof fn lemma_red32_clmul_p_prefix(q: u64, k: nat)
    requires
        q < 0x100000000,
        k <= 32,
    ensures
        red32(clmul32(IRREDUCIBLE_32, q & low_mask64(k as u64), 32)) == 0,
    decreases k,
{
    let pp = IRREDUCIBLE_32;
    if k == 0 {
        lemma_bv32(q, 0, 0, 0, 0, 0, 0, 0, false, false, 0, 0);
        lemma_clmul32_zero(pp, 32);
        lemma_reduce32_small(0, 63);
    } else {
        let kk = (k - 1) as u64;
        lemma_red32_clmul_p_prefix(q, (k - 1) as nat);
        lemma_bv32(q, 0, kk, 0, 0, 0, 0, 0, false, false, 0, 0);
        assert((kk + 1) as u64 == k as u64);
        let lo = q & low_mask64(kk);
        let bit = ((q >> kk) & 1) == 1;
        let t: u64 = if bit {
            1u64 << kk
        } else {
            0u64
        };
        lemma_clmul32_xor_right(pp, lo, t, 32);
        lemma_reduce32_xor(clmul32(pp, lo, 32), clmul32(pp, t, 32), 63);
        if bit {
            lemma_clmul32_single(pp, kk, 32);
            lemma_red32_pm(kk, 63);
        } else {
            lemma_clmul32_zero(pp, 32);
            lemma_reduce32_small(0, 63);
        }
        lemma_bv32_assoc(0, 0, 0, 0, 0, 0, 0, 0, 0);
    }
}

/// The reduction kills every multiple of the polynomial by a 32-bit word.
proof fn lemma_red32_clmul_p(q: u64)
    requires
        q < 0x100000000,
    ensures
        red32(clmul32(IRREDUCIBLE_32, q, 32)) == 0,
{
    lemma_red32_clmul_p_prefix(q, 32);
    lemma_bv32(q, 0, 0, 0, 0, 0, 0, 0, false, false, 0, 0);
}

/// Shifting the first factor shifts the carry-less product.
proof fn lemma_clmul32_shl_left(a: u64, b: u64, k: nat)
    requires
        k <= 64,
    ensures
        clmul32(a << 1u64, b, k) == clmul32(a, b, k) << 1u64,
    decreases k,
{
    if k == 0 {
        lemma_bv32_assoc(0, 0, 0, 0, 0, 0, 0, 0, 0);
    } else {
        let kk = (k - 1) as u64;
        lemma_clmul32_shl_left(a, b, (k - 1) as nat);
        lemma_bv32_assoc(0, 0, 0, kk, a, clmul32(a, b, (k - 1) as nat), 0, 0, 0);
        lemma_bv32_assoc(0, 0, 0, kk, clmul32(a, b, (k - 1) as nat), a << kk, 0, 0, 0);
    }
}

/// Shifting the second factor shifts the carry-less product.
proof fn lemma_clmul32_shl_right(a: u64, b: u64, k: nat)
    requires
        k <= 63,
    ensures
        clmul32(a, b << 1u64, k + 1) == clmul32(a, b, k) << 1u64,
    decreases k,
{
    if k == 0 {
        lemma_bv32_assoc(0, 0, 0, 0, 0, b, 0, 0, 0);
        assert(clmul32(a, b << 1u64, 0) == 0);
        assert((((b << 1u64) >> 0u64) & 1) == 0);
        assert(((1nat - 1) as u64) == 0u64);
        assert(clmul32(a, b << 1u64, 1) == 0);
    } else {
        let kk = (k - 1) as u64;
        lemma_clmul32_shl_right(a, b, (k - 1) as nat);
        let prev = clmul32(a, b, (k - 1) as nat);
        lemma_bv32_assoc(0, 0, 0, kk, a, b, 0, 0, 0);
        lemma_bv32_assoc(0, 0, 0, kk, prev, a << kk, 0, 0, 0);
        assert(((kk + 1) as u64) == (k as u64));
    }
}

/// The carry-less product of 32-bit words stays below `2^(31 + k)`.
proof fn lemma_clmul32_bound(a: u64, b: u64, k: nat)
    requires
        a < 0x100000000,
        k <= 32,
    ensures
        clmul32(a, b, k) < (1u64 << ((31 + k) as u64)),
    decreases k,
{
    if k == 0 {
        lemma_bv32_assoc(0, 0, 0, 0, 0, 0, 0, 0, 0);
    } else {
        let kk = (k - 1) as u64;
        lemma_clmul32_bound(a, b, (k - 1) as nat);
        lemma_bv32_assoc(0, 0, 0, kk, a, 0, 0, clmul32(a, b, (k - 1) as nat), 0);
        assert(((32 + kk) as u64) == ((31 + k) as u64));
    }
}

/// Facts about products with 0, 1 and the bound of products.
proof fn lemma_m32_basics(a: u64, b: u64)
    requires
        b < 0x100000000,
    ensures
        m32(a, b) < 0x100000000,
        m32(0, b) == 0,
        m32(1, b) == b,
{
    lemma_red32_bound(clmul32(a, b, 32));
    lemma_clmul32_zero(b, 32);
    lemma_reduce32_small(0, 63);
    lemma_clmul32_unit(0, b, 32);
    lemma_bv32(b, 0, 0, 0, 0, 0, 0, 0, false, false, 0, 0);
    lemma_bv32_assoc(0, 0, 0, 0, b, 0, 0, 0, 0);
    lemma_reduce32_small(b, 63);
}

/// The product is linear in its first factor.
proof fn lemma_m32_xor_left(a1: u64, a2: u64, b: u64)
    ensures
        m32(a1 ^ a2, b) == m32(a1, b) ^ m32(a2, b),
{
    lemma_clmul32_xor_left(a1, a2, b, 32);
    lemma_reduce32_xor(clmul32(a1, b, 32), clmul32(a2, b, 32), 63);
}

/// Multiplying by `x` commutes with multiplication.
proof fn lemma_m32_times_x(a: u64, b: u64)
    requires
        a < 0x100000000,
        b < 0x100000000,
    ensures
        m32(m32(2, a), b) == m32(2, m32(a, b)),
{
    let pp = IRREDUCIBLE_32;
    // m32(2, a) is the reduction of a << 1
    lemma_clmul32_unit(1, a, 32);
    lemma_bv32(a, 0, 0, 0, 0, 0, 0, 0, false, false, 0, 0);
    lemma_bv32_assoc(0, 0, 0, 0, a, 0, 0, 0, 0);
    let a1 = a << 1u64;
    assert(clmul32(2, a, 32) == a1);
    lemma_red32_quo(a1, 32);
    lemma_red32_high_zero(a1, 32, 63);
    let q = quo32(a1, 32);
    assert(q < 2) by {
        lemma_bv32_assoc(0, 0, 0, 0, 0, 0, 0, 0, 0);
    }
    let x = red32(a1);
    let pq = clmul32(pp, q, 32);
    assert(x == a1 ^ pq);
    lemma_clmul32_xor_left(a1, pq, b, 32);
    lemma_clmul32_shl_left(a, b, 32);
    let c = clmul32(a, b, 32);
    lemma_reduce32_xor(c << 1u64, clmul32(pq, b, 32), 63);
    lemma_bv32_assoc(0, 0, 0, 0, 0, 0, 0, 0, q);
    if q == 0 {
        lemma_clmul32_zero(pp, 32);
        lemma_clmul32_zero(b, 32);
        lemma_reduce32_small(0, 63);
    } else {
        lemma_clmul32_one(pp, 32);
        lemma_red32_clmul_p(b);
    }
    lemma_bv32_assoc(0, 0, 0, 0, red32(c << 1u64), 0, 0, 0, 0);
    assert(m32(x, b) == red32(c << 1u64));
    // m32(2, m32(a, b)) is the reduction of red32(c) << 1
    lemma_clmul32_bound(a, b, 32);
    lemma_red32_quo(c, 62);
    lemma_red32_high_zero(c, 62, 63);
    let q1 = quo32(c, 62);
    let y = red32(c);
    lemma_red32_bound(c);
    lemma_clmul32_unit(1, y, 32);
    lemma_bv32(y, 0, 0, 0, 0, 0, 0, 0, false, false, 0, 0);
    lemma_bv32_assoc(0, 0, 0, 0, 0, 0, 0, 0, q1);
    lemma_clmul32_tail(pp, q1, 31, 32);
    lemma_clmul32_shl_right(pp, q1, 31);
    let pq1 = clmul32(pp, q1, 32);
    lemma_bv32_assoc(0, 0, 0, 0, c, pq1, 0, 0, 0);
    assert(y << 1u64 == (c << 1u64) ^ clmul32(pp, q1 << 1u64, 32));
    lemma_reduce32_xor(c << 1u64, clmul32(pp, q1 << 1u64, 32), 63);
    lemma_red32_clmul_p(q1 << 1u64);
}

/// Associativity with a single bit as the first factor.
proof fn lemma_m32_assoc_unit(k: u64, b: u64, c: u64)
    requires
        k < 32,
        b < 0x100000000,
        c < 0x100000000,
    ensures
        m32(m32(1u64 << k, b), c) == m32(1u64 << k, m32(b, c)),
    decreases k,
{
    lemma_bv32_assoc(0, 0, 0, 0, 0, 0, 0, 0, 0);
    lemma_m32_basics(b, c);
    if k == 0 {
        lemma_m32_basics(0, b);
        lemma_m32_basics(0, m32(b, c));
    } else {
        let j = (k - 1) as u64;
        let e = 1u64 << j;
        lemma_m32_assoc_unit(j, b, c);
        // 1 << k is x times 1 << j
        lemma_bv32_assoc(0, 0, j, 0, 0, 0, 0, 0, 0);
        lemma_bv32_assoc(0, 0, 0, j, 1, 0, 0, 0, 0);
        assert(((j + 1) as u64) == k);
        lemma_clmul32_unit(1, e, 32);
        lemma_bv32(e, 0, 0, 0, 0, 0, 0, 0, false, false, 0, 0);
        lemma_bv32_assoc(0, 0, k, 0, 0, 0, 0, 0, 0);
        lemma_reduce32_small(1u64 << k, 63);
        assert(m32(2, e) == 1u64 << k);
        let eb = m32(e, b);
        let bc = m32(b, c);
        lemma_m32_basics(e, b);
        lemma_m32_times_x(e, b);
        lemma_m32_times_x(eb, c);
        lemma_m32_times_x(e, bc);
    }
}

/// Associativity for the low `k` bits of the first factor.
proof fn lemma_m32_assoc_prefix(a: u64, b: u64, c: u64, k: nat)
    requires
        a < 0x100000000,
        b < 0x100000000,
        c < 0x100000000,
        k <= 32,
    ensures
        m32(m32(a & low_mask64(k as u64), b), c) == m32(a & low_mask64(k as u64), m32(b, c)),
    decreases k,
{
    lemma_m32_basics(b, c);
    if k == 0 {
        lemma_bv32(a, 0, 0, 0, 0, 0, 0, 0, false, false, 0, 0);
        lemma_m32_basics(0, b);
        lemma_m32_basics(0, m32(b, c));
        lemma_m32_basics(0, c);
    } else {
        let kk = (k - 1) as u64;
        lemma_m32_assoc_prefix(a, b, c, (k - 1) as nat);
        lemma_bv32(a, 0, kk, 0, 0, 0, 0, 0, false, false, 0, 0);
        assert((kk + 1) as u64 == k as u64);
        let lo = a & low_mask64(kk);
        let bit = ((a >> kk) & 1) == 1;
        let t: u64 = if bit {
            1u64 << kk
        } else {
            0u64
        };
        lemma_m32_xor_left(lo, t, b);
        lemma_m32_xor_left(m32(lo, b), m32(t, b), c);
        lemma_m32_xor_left(lo, t, m32(b, c));
        if bit {
            lemma_m32_assoc_unit(kk, b, c);
        } else {
            lemma_m32_basics(0, b);
            lemma_m32_basics(0, m32(b, c));
            lemma_m32_basics(0, c);
        }
    }
}

/// Multiplication in GF(2^32) is associative.
pub proof fn lemma_mul32_assoc(a: u32, b: u32, c: u32)
    ensures
        mul32(mul32(a, b), c) == mul32(a, mul32(b, c)),
{
    let x = a as u64;
    let y = b as u64;
    let z = c as u64;
    lemma_m32_assoc_prefix(x, y, z, 32);
    lemma_bv32(x, 0, 0, 0, 0, 0, 0, 0, false, false, 0, 0);
    lemma_m32_basics(x, y);
    lemma_m32_basics(y, z);
    lemma_bv32_assoc(0, 0, 0, 0, m32(x, y), 0, 0, 0, 0);
    lemma_bv32_assoc(0, 0, 0, 0, m32(y, z), 0, 0, 0, 0);
    assert(mul32(a, b) as u64 == m32(x, y));
    assert(mul32(b, c) as u64 == m32(y, z));
}

// ---------------------------------------------------------------------------
// The inverse of 6 = 3 * 3 + 3, by square-and-multiply on constants
// ---------------------------------------------------------------------------

/// `3 * 3` and the products that raising 6 to the power `2^16 - 2` goes through.
proof fn lemma_bv16_powers_of_six()
    by (bit_vector)
    ensures
        mul16(3, 3) == 5,
        (5u16 ^ 3u16) == 6u16,
        mul16(0x6, 0x6) == 0x14,
        mul16(0x1, 0x14) == 0x14,
        mul16(0x14, 0x14) == 0x110,
        mul16(0x14, 0x110) == 0x1540,
        mul16(0x110, 0x110) == 0x12d,
        mul16(0x1540, 0x12d) == 0x53,
        mul16(0x12d, 0x12d) == 0x47c,
        mul16(0x53, 0x47c) == 0x5469,
        mul16(0x47c, 0x47c) == 0x1780,
        mul16(0x5469, 0x1780) == 0x126d,
        mul16(0x1780, 0x1780) == 0x6f49,
        mul16(0x126d, 0x6f49) == 0x79b3,
        mul16(0x6f49, 0x6f49) == 0x7d12,
        mul16(0x79b3, 0x7d12) == 0x6fe8,
        mul16(0x7d12, 0x7d12) == 0x41e3,
        mul16(0x6fe8, 0x41e3) == 0x750b,
        mul16(0x41e3, 0x41e3) == 0x8472,
        mul16(0x750b, 0x8472) == 0x9131,
        mul16(0x8472, 0x8472) == 0x56cb,
        mul16(0x9131, 0x56cb) == 0x373f,
        mul16(0x56cb, 0x56cb) == 0xaf7b,
        mul16(0x373f, 0xaf7b) == 0x98af,
        mul16(0xaf7b, 0xaf7b) == 0xe953,
        mul16(0x98af, 0xe953) == 0xbcd2,
        mul16(0xe953, 0xe953) == 0x3f2d,
        mul16(0xbcd2, 0x3f2d) == 0xbae,
        mul16(0x3f2d, 0x3f2d) == 0x9458,
        mul16(0xbae, 0x9458) == 0xc67d,
        mul16(0x9458, 0x9458) == 0x7f8f,
        mul16(0xc67d, 0x7f8f) == 0x7ff2,
        mul16(0x7f8f, 0x7f8f) == 0x6,
        mul16(0x6, 0x7ff2) == 1,
{
}

/// In GF(2^16), `3 * 3 + 3` is 6, whose inverse is 0x7ff2.
pub(crate) proof fn lemma_denominator_inverse_16()
    ensures
        (mul16(3, 3) ^ 3u16) == 6u16,
        pow16(6, 65534) == 0x7ff2,
        mul16(6, 0x7ff2) == 1,
{
    lemma_bv16_powers_of_six();
    assert(pow16_acc(0x1, 0x6, 65534) == pow16_acc(0x1, 0x14, 32767));
    assert(pow16_acc(0x1, 0x14, 32767) == pow16_acc(0x14, 0x110, 16383));
    assert(pow16_acc(0x14, 0x110, 16383) == pow16_acc(0x1540, 0x12d, 8191));
    assert(pow16_acc(0x1540, 0x12d, 8191) == pow16_acc(0x53, 0x47c, 4095));
    assert(pow16_acc(0x53, 0x47c, 4095) == pow16_acc(0x5469, 0x1780, 2047));
    assert(pow16_acc(0x5469, 0x1780, 2047) == pow16_acc(0x126d, 0x6f49, 1023));
    assert(pow16_acc(0x126d, 0x6f49, 1023) == pow16_acc(0x79b3, 0x7d12, 511));
    assert(pow16_acc(0x79b3, 0x7d12, 511) == pow16_acc(0x6fe8, 0x41e3, 255));
    assert(pow16_acc(0x6fe8, 0x41e3, 255) == pow16_acc(0x750b, 0x8472, 127));
    assert(pow16_acc(0x750b, 0x8472, 127) == pow16_acc(0x9131, 0x56cb, 63));
    assert(pow16_acc(0x9131, 0x56cb, 63) == pow16_acc(0x373f, 0xaf7b, 31));
    assert(pow16_acc(0x373f, 0xaf7b, 31) == pow16_acc(0x98af, 0xe953, 15));
    assert(pow16_acc(0x98af, 0xe953, 15) == pow16_acc(0xbcd2, 0x3f2d, 7));
    assert(pow16_acc(0xbcd2, 0x3f2d, 7) == pow16_acc(0xbae, 0x9458, 3));
    assert(pow16_acc(0xbae, 0x9458, 3) == pow16_acc(0xc67d, 0x7f8f, 1));
    assert(pow16_acc(0xc67d, 0x7f8f, 1) == pow16_acc(0x7ff2, 0x6, 0));
}

/// `3 * 3` and the products that raising 6 to the power `2^32 - 2` goes through.
proof fn lemma_bv32_powers_of_six()
    by (bit_vector)
    ensures
        mul32(3, 3) == 5,
        (5u32 ^ 3u32) == 6u32,
        mul32(0x6, 0x6) == 0x14,
        mul32(0x1, 0x14) == 0x14,
        mul32(0x14, 0x14) == 0x110,
        mul32(0x14, 0x110) == 0x1540,
        mul32(0x110, 0x110) == 0x10100,
        mul32(0x1540, 0x10100) == 0x15554000,
        mul32(0x10100, 0x10100) == 0x18299,
        mul32(0x15554000, 0x18299) == 0x5550fce,
        mul32(0x18299, 0x18299) == 0x4004c3d8,
        mul32(0x5550fce, 0x4004c3d8) == 0xb055e7cc,
        mul32(0x4004c3d8, 0x4004c3d8) == 0xc40d75a1,
        mul32(0xb055e7cc, 0xc40d75a1) == 0xcca23340,
        mul32(0xc40d75a1, 0xc40d75a1) == 0xf8ac6007,
        mul32(0xcca23340, 0xf8ac6007) == 0x775edd53,
        mul32(0xf8ac6007, 0xf8ac6007) == 0xa895af2a,
        mul32(0x775edd53, 0xa895af2a) == 0x4c68898b,
        mul32(0xa895af2a, 0xa895af2a) == 0xf7283661,
        mul32(0x4c68898b, 0xf7283661) == 0x5e7ee1d4,
        mul32(0xf7283661, 0xf7283661) == 0x9e179074,
        mul32(0x5e7ee1d4, 0x9e179074) == 0x3f121eba,
        mul32(0x9e179074, 0x9e179074) == 0xd6816e3,
        mul32(0x3f121eba, 0xd6816e3) == 0x407a0f44,
        mul32(0xd6816e3, 0xd6816e3) == 0x64a41ad,
        mul32(0x407a0f44, 0x64a41ad) == 0x96332627,
        mul32(0x64a41ad, 0x64a41ad) == 0x3bfb698f,
        mul32(0x96332627, 0x3bfb698f) == 0x725f6c0d,
        mul32(0x3bfb698f, 0x3bfb698f) == 0xec887fb2,
        mul32(0x725f6c0d, 0xec887fb2) == 0x149479fa,
        mul32(0xec887fb2, 0xec887fb2) == 0x1b16fad1,
        mul32(0x149479fa, 0x1b16fad1) == 0x4d7d79a2,
        mul32(0x1b16fad1, 0x1b16fad1) == 0xe220f455,
        mul32(0x4d7d79a2, 0xe220f455) == 0x730647ea,
        mul32(0xe220f455, 0xe220f455) == 0xfc7e6e5e,
        mul32(0x730647ea, 0xfc7e6e5e) == 0xc8bb13f0,
        mul32(0xfc7e6e5e, 0xfc7e6e5e) == 0xa95ae9c7,
        mul32(0xc8bb13f0, 0xa95ae9c7) == 0x10eaa935,
        mul32(0xa95ae9c7, 0xa95ae9c7) == 0x4d00b51d,
        mul32(0x10eaa935, 0x4d00b51d) == 0xa4fa04c0,
        mul32(0x4d00b51d, 0x4d00b51d) == 0xdc4c4bc8,
        mul32(0xa4fa04c0, 0xdc4c4bc8) == 0xb08fb22b,
        mul32(0xdc4c4bc8, 0xdc4c4bc8) == 0xcac17c4d,
        mul32(0xb08fb22b, 0xcac17c4d) == 0xbbb2633f,
        mul32(0xcac17c4d, 0xcac17c4d) == 0x55eb295d,
        mul32(0xbbb2633f, 0x55eb295d) == 0x9f5d85f5,
        mul32(0x55eb295d, 0x55eb295d) == 0x88abdbe7,
        mul32(0x9f5d85f5, 0x88abdbe7) == 0x751e1682,
        mul32(0x88abdbe7, 0x88abdbe7) == 0x859a3d7e,
        mul32(0x751e1682, 0x859a3d7e) == 0x24d1d013,
        mul32(0x859a3d7e, 0x859a3d7e) == 0xde5b444e,
        mul32(0x24d1d013, 0xde5b444e) == 0x8ff9abf3,
        mul32(0xde5b444e, 0xde5b444e) == 0xc0790106,
        mul32(0x8ff9abf3, 0xc0790106) == 0x70dfd36b,
        mul32(0xc0790106, 0xc0790106) == 0xce81744a,
        mul32(0x70dfd36b, 0xce81744a) == 0x53aba2cd,
        mul32(0xce81744a, 0xce81744a) == 0x7416ad80,
        mul32(0x53aba2cd, 0x7416ad80) == 0xbfbf4191,
        mul32(0x7416ad80, 0x7416ad80) == 0x50d8905,
        mul32(0xbfbf4191, 0x50d8905) == 0xf2382ac3,
        mul32(0x50d8905, 0x50d8905) == 0xeb641990,
        mul32(0xf2382ac3, 0xeb641990) == 0x9fa57acb,
        mul32(0xeb641990, 0xeb641990) == 0x84c7d4ff,
        mul32(0x9fa57acb, 0x84c7d4ff) == 0x7fffc0c4,
        mul32(0x84c7d4ff, 0x84c7d4ff) == 0x6,
        mul32(0x6, 0x7fffc0c4) == 1,
{
}

/// In GF(2^32), `3 * 3 + 3` is 6, whose inverse is 0x7fffc0c4.
pub(crate) proof fn lemma_denominator_inverse_32()
    ensures
        (mul32(3, 3) ^ 3u32) == 6u32,
        pow32(6, 4294967294) == 0x7fffc0c4,
        mul32(6, 0x7fffc0c4) == 1,
{
    lemma_bv32_powers_of_six();
    assert(pow32_acc(0x1, 0x6, 4294967294) == pow32_acc(0x1, 0x14, 2147483647));
    assert(pow32_acc(0x1, 0x14, 2147483647) == pow32_acc(0x14, 0x110, 1073741823));
    assert(pow32_acc(0x14, 0x110, 1073741823) == pow32_acc(0x1540, 0x10100, 536870911));
    assert(pow32_acc(0x1540, 0x10100, 536870911) == pow32_acc(0x15554000, 0x18299, 268435455));
    assert(pow32_acc(0x15554000, 0x18299, 268435455) == pow32_acc(0x5550fce, 0x4004c3d8, 134217727));
    assert(pow32_acc(0x5550fce, 0x4004c3d8, 134217727) == pow32_acc(0xb055e7cc, 0xc40d75a1, 67108863));
    assert(pow32_acc(0xb055e7cc, 0xc40d75a1, 67108863) == pow32_acc(0xcca23340, 0xf8ac6007, 33554431));
    assert(pow32_acc(0xcca23340, 0xf8ac6007, 33554431) == pow32_acc(0x775edd53, 0xa895af2a, 16777215));
    assert(pow32_acc(0x775edd53, 0xa895af2a, 16777215) == pow32_acc(0x4c68898b, 0xf7283661, 8388607));
    assert(pow32_acc(0x4c68898b, 0xf7283661, 8388607) == pow32_acc(0x5e7ee1d4, 0x9e179074, 4194303));
    assert(pow32_acc(0x5e7ee1d4, 0x9e179074, 4194303) == pow32_acc(0x3f121eba, 0xd6816e3, 2097151));
    assert(pow32_acc(0x3f121eba, 0xd6816e3, 2097151) == pow32_acc(0x407a0f44, 0x64a41ad, 1048575));
    assert(pow32_acc(0x407a0f44, 0x64a41ad, 1048575) == pow32_acc(0x96332627, 0x3bfb698f, 524287));
    assert(pow32_acc(0x96332627, 0x3bfb698f, 524287) == pow32_acc(0x725f6c0d, 0xec887fb2, 262143));
    assert(pow32_acc(0x725f6c0d, 0xec887fb2, 262143) == pow32_acc(0x149479fa, 0x1b16fad1, 131071));
    assert(pow32_acc(0x149479fa, 0x1b16fad1, 131071) == pow32_acc(0x4d7d79a2, 0xe220f455, 65535));
    assert(pow32_acc(0x4d7d79a2, 0xe220f455, 65535) == pow32_acc(0x730647ea, 0xfc7e6e5e, 32767));
    assert(pow32_acc(0x730647ea, 0xfc7e6e5e, 32767) == pow32_acc(0xc8bb13f0, 0xa95ae9c7, 16383));
    assert(pow32_acc(0xc8bb13f0, 0xa95ae9c7, 16383) == pow32_acc(0x10eaa935, 0x4d00b51d, 8191));
    assert(pow32_acc(0x10eaa935, 0x4d00b51d, 8191) == pow32_acc(0xa4fa04c0, 0xdc4c4bc8, 4095));
    assert(pow32_acc(0xa4fa04c0, 0xdc4c4bc8, 4095) == pow32_acc(0xb08fb22b, 0xcac17c4d, 2047));
    assert(pow32_acc(0xb08fb22b, 0xcac17c4d, 2047) == pow32_acc(0xbbb2633f, 0x55eb295d, 1023));
    assert(pow32_acc(0xbbb2633f, 0x55eb295d, 1023) == pow32_acc(0x9f5d85f5, 0x88abdbe7, 511));
    assert(pow32_acc(0x9f5d85f5, 0x88abdbe7, 511) == pow32_acc(0x751e1682, 0x859a3d7e, 255));
    assert(pow32_acc(0x751e1682, 0x859a3d7e, 255) == pow32_acc(0x24d1d013, 0xde5b444e, 127));
    assert(pow32_acc(0x24d1d013, 0xde5b444e, 127) == pow32_acc(0x8ff9abf3, 0xc0790106, 63));
    assert(pow32_acc(0x8ff9abf3, 0xc0790106, 63) == pow32_acc(0x70dfd36b, 0xce81744a, 31));
    assert(pow32_acc(0x70dfd36b, 0xce81744a, 31) == pow32_acc(0x53aba2cd, 0x7416ad80, 15));
    assert(pow32_acc(0x53aba2cd, 0x7416ad80, 15) == pow32_acc(0xbfbf4191, 0x50d8905, 7));
    assert(pow32_acc(0xbfbf4191, 0x50d8905, 7) == pow32_acc(0xf2382ac3, 0xeb641990, 3));
    assert(pow32_acc(0xf2382ac3, 0xeb641990, 3) == pow32_acc(0x9fa57acb, 0x84c7d4ff, 1));
    assert(pow32_acc(0x9fa57acb, 0x84c7d4ff, 1) == pow32_acc(0x7fffc0c4, 0x6, 0));
}

} // verus!
