//! Binary extension fields GF(2^16) and GF(2^32).
//!
//! Elements are polynomials over GF(2) stored as their coefficient bits.
//! Addition is XOR; multiplication is carry-less multiplication followed by
//! reduction modulo a fixed irreducible polynomial.
use vstd::arithmetic::power2::*;
use vstd::prelude::*;

verus! {

/// What the generic algorithms of this crate need from a binary field.
pub trait BinaryField: Sized + Copy {
    /// Number of elements of the field (2^bits).
    spec fn spec_order() -> nat;

    /// The element's coefficient bits read as a natural number.
    spec fn spec_value(self) -> nat;

    spec fn spec_zero() -> Self;

    spec fn spec_one() -> Self;

    spec fn spec_add(a: Self, b: Self) -> Self;

    spec fn spec_mul(a: Self, b: Self) -> Self;

    /// The element whose coefficient bits are `n` (for `n < spec_order()`).
    spec fn spec_from_nat(n: nat) -> Self;

    /// The element made of the low bits of `v`.
    spec fn spec_from_u128(v: u128) -> Self;

    /// Little-endian bytes of the element's value.
    spec fn spec_to_bytes(self) -> Seq<u8>;

    /// The inverse by Fermat's little theorem, `self^(order - 2)` computed by
    /// square-and-multiply; zero for zero.
    spec fn spec_inverse(self) -> Self;

    proof fn lemma_order()
        ensures
            Self::spec_order() >= 0x10000,
            Self::spec_zero().spec_value() == 0,
            Self::spec_one().spec_value() == 1,
            Self::spec_zero() == Self::spec_from_nat(0),
            Self::spec_one() == Self::spec_from_nat(1),
    ;

    proof fn lemma_value(x: Self)
        ensures
            x.spec_value() < Self::spec_order(),
            Self::spec_from_nat(x.spec_value()) == x,
    ;

    proof fn lemma_from_nat(n: nat)
        requires
            n < Self::spec_order(),
        ensures
            Self::spec_from_nat(n).spec_value() == n,
    ;

    proof fn lemma_add_comm(a: Self, b: Self)
        ensures
            Self::spec_add(a, b) == Self::spec_add(b, a),
    ;

    proof fn lemma_add_assoc(a: Self, b: Self, c: Self)
        ensures
            Self::spec_add(a, Self::spec_add(b, c)) == Self::spec_add(Self::spec_add(a, b), c),
    ;

    proof fn lemma_add_zero(a: Self)
        ensures
            Self::spec_add(a, Self::spec_zero()) == a,
            Self::spec_add(Self::spec_zero(), a) == a,
    ;

    proof fn lemma_add_self(a: Self)
        ensures
            Self::spec_add(a, a) == Self::spec_zero(),
    ;

    proof fn lemma_mul_zero(a: Self)
        ensures
            Self::spec_mul(a, Self::spec_zero()) == Self::spec_zero(),
            Self::spec_mul(Self::spec_zero(), a) == Self::spec_zero(),
    ;

    proof fn lemma_mul_one(a: Self)
        ensures
            Self::spec_mul(a, Self::spec_one()) == a,
    ;

    proof fn lemma_mul_comm(a: Self, b: Self)
        ensures
            Self::spec_mul(a, b) == Self::spec_mul(b, a),
    ;

    proof fn lemma_mul_distrib(a: Self, b: Self, c: Self)
        ensures
            Self::spec_mul(a, Self::spec_add(b, c)) == Self::spec_add(Self::spec_mul(a, b), Self::spec_mul(a, c)),
    ;

    proof fn lemma_mul_assoc(a: Self, b: Self, c: Self)
        ensures
            Self::spec_mul(Self::spec_mul(a, b), c) == Self::spec_mul(a, Self::spec_mul(b, c)),
    ;

    proof fn lemma_inverse_zero()
        ensures
            Self::spec_zero().spec_inverse() == Self::spec_zero(),
    ;

    /// `3 * 3 + 3 != 0`, so 3 can serve as the third interpolation point.
    proof fn lemma_three_is_not_a_root()
        ensures
            Self::spec_add(
                Self::spec_mul(Self::spec_from_nat(3), Self::spec_from_nat(3)),
                Self::spec_from_nat(3),
            ) != Self::spec_zero(),
    ;

    /// `3 * 3 + 3` times its inverse is one.
    proof fn lemma_three_denominator_inverse()
        ensures
            Self::spec_mul(
                Self::spec_add(
                    Self::spec_mul(Self::spec_from_nat(3), Self::spec_from_nat(3)),
                    Self::spec_from_nat(3),
                ),
                Self::spec_add(
                    Self::spec_mul(Self::spec_from_nat(3), Self::spec_from_nat(3)),
                    Self::spec_from_nat(3),
                ).spec_inverse(),
            ) == Self::spec_one(),
    ;

    fn zero() -> (r: Self)
        ensures
            r == Self::spec_zero(),
    ;

    fn one() -> (r: Self)
        ensures
            r == Self::spec_one(),
    ;

    fn add(self, other: Self) -> (r: Self)
        ensures
            r == Self::spec_add(self, other),
    ;

    fn mul(self, other: Self) -> (r: Self)
        ensures
            r == Self::spec_mul(self, other),
    ;

    fn equals(&self, other: &Self) -> (r: bool)
        ensures
            r == (*self == *other),
    ;

    fn from_usize(n: usize) -> (r: Self)
        requires
            n < Self::spec_order(),
        ensures
            r == Self::spec_from_nat(n as nat),
    ;

    fn from_u128(v: u128) -> (r: Self)
        ensures
            r == Self::spec_from_u128(v),
    ;

    fn to_bytes(&self) -> (r: Vec<u8>)
        ensures
            r@ == self.spec_to_bytes(),
    ;

    /// The multiplicative inverse, computed as `self^(order - 2)`.
    fn inverse(&self) -> (r: Result<Self, &'static str>)
        ensures
            r is Err <==> *self == Self::spec_zero(),
            r matches Ok(v) ==> v == self.spec_inverse(),
    ;

    /// `self` divided by `other`: `self` times the inverse of `other`, which
    /// must not be zero.
    fn div(self, other: Self) -> (r: Self)
        requires
            other != Self::spec_zero(),
        ensures
            r == Self::spec_mul(self, other.spec_inverse()),
    {
        match other.inverse() {
            Ok(v) => self.mul(v),
            Err(_) => self,
        }
    }

    /// A uniformly random element.
    fn random() -> (r: Self);

    /// The number of bits of an element: the field has `2^bits` elements.
    fn bits() -> (r: usize)
        ensures
            pow2(r as nat) == Self::spec_order(),
            r < 64,
    ;
}

/// A uniformly random field element.
pub fn random<F: BinaryField>() -> (r: F) {
    F::random()
}

/// Calls `rand::random::<u16>()`; nothing is claimed of the result.
#[verifier::external_body]
fn random_u16() -> (r: u16) {
    rand::random::<u16>()
}

/// Calls `rand::random::<u32>()`; nothing is claimed of the result.
#[verifier::external_body]
fn random_u32() -> (r: u32) {
    rand::random::<u32>()
}

// ---------------------------------------------------------------------------
// GF(2^16) modulo x^16 + x^5 + x^3 + x^2 + 1
// ---------------------------------------------------------------------------

pub const IRREDUCIBLE_16: u32 = 0x1002D;

/// Carry-less product of `a` and the low `k` bits of `b`.
pub open spec fn clmul16(a: u32, b: u32, k: nat) -> u32
    decreases k,
{
    if k == 0 {
        0
    } else {
        let prev = clmul16(a, b, (k - 1) as nat);
        if (b >> ((k - 1) as u32)) & 1 == 1 {
            prev ^ (a << ((k - 1) as u32))
        } else {
            prev
        }
    }
}

pub open spec fn reduce16_step(r: u32, i: u32) -> u32 {
    if r & (1u32 << i) != 0 {
        r ^ (IRREDUCIBLE_16 << ((i - 16) as u32))
    } else {
        r
    }
}

/// Clears bits `i, i-1, ..., 16` of `r` (highest first) by the irreducible.
pub open spec fn reduce16_from(r: u32, i: int) -> u32
    decreases i,
{
    if i < 16 {
        r
    } else {
        reduce16_from(reduce16_step(r, i as u32), i - 1)
    }
}

pub open spec fn mul16(a: u16, b: u16) -> u16 {
    reduce16_from(clmul16(a as u32, b as u32, 16), 31) as u16
}

/// Square-and-multiply from an accumulator: the value the exponentiation
/// loop reaches from `result` and `base` with exponent bits `e` left.
pub open spec fn pow16_acc(result: u16, base: u16, e: nat) -> u16
    decreases e,
{
    if e == 0 {
        result
    } else {
        pow16_acc(
            if e % 2 == 1 {
                mul16(result, base)
            } else {
                result
            },
            mul16(base, base),
            e / 2,
        )
    }
}

/// `x^e` by square-and-multiply.
pub open spec fn pow16(x: u16, e: nat) -> u16 {
    pow16_acc(1, x, e)
}

#[derive(Clone, Copy, Debug, PartialEq, Eq, Structural, Hash)]
pub struct BinaryElem16 {
    pub value: u16,
}

pub(crate) proof fn lemma_clmul16_tail(a: u32, b: u32, j: nat, k: nat)
    requires
        j <= k <= 32,
        b >> (j as u32) == 0,
    ensures
        clmul16(a, b, k) == clmul16(a, b, j),
    decreases k,
{
    if k > j {
        lemma_clmul16_tail(a, b, j, (k - 1) as nat);
        let jj = j as u32;
        let kk = (k - 1) as u32;
        assert((b >> jj) == 0 && jj <= kk && kk < 32 ==> (b >> kk) & 1 == 0) by (bit_vector);
    }
}

pub(crate) proof fn lemma_clmul16_zero(a: u32, k: nat)
    requires
        k <= 32,
    ensures
        clmul16(a, 0, k) == 0,
        clmul16(0, a, k) == 0,
    decreases k,
{
    if k > 0 {
        lemma_clmul16_zero(a, (k - 1) as nat);
        let kk = (k - 1) as u32;
        assert((0u32 >> kk) & 1 == 0 && (0u32 << kk) == 0 && (0u32 ^ 0u32) == 0) by (bit_vector);
    }
}

pub(crate) proof fn lemma_clmul16_one(a: u32, k: nat)
    requires
        1 <= k <= 32,
    ensures
        clmul16(a, 1, k) == a,
    decreases k,
{
    if k == 1 {
        assert(clmul16(a, 1, 0) == 0);
        assert(((1u32 >> 0u32) & 1) == 1 && (0u32 ^ (a << 0u32)) == a) by (bit_vector);
        assert(((k - 1) as u32) == 0u32);
    } else {
        lemma_clmul16_one(a, (k - 1) as nat);
        let kk = (k - 1) as u32;
        assert(kk >= 1 && kk < 32 ==> (1u32 >> kk) & 1 == 0) by (bit_vector);
    }
}

pub(crate) proof fn lemma_reduce16_small(r: u32, i: int)
    requires
        r < 0x10000,
        i <= 31,
    ensures
        reduce16_from(r, i) == r,
    decreases i,
{
    if i >= 16 {
        let ii = i as u32;
        assert(r < 0x10000 && 16 <= ii && ii < 32 ==> r & (1u32 << ii) == 0) by (bit_vector);
        lemma_reduce16_small(r, i - 1);
    }
}

fn poly_multiply_gf2_16(a: u16, b: u16) -> (r: u32)
    ensures
        r == clmul16(a as u32, b as u32, 16),
{
    let mut result: u32 = 0;
    let mut tempa: u32 = a as u32;
    let mut tempb: u32 = b as u32;
    let ghost aa = a as u32;
    let ghost bb = b as u32;
    let ghost mut j: nat = 0;
    assert(aa << 0u32 == aa && bb >> 0u32 == bb) by (bit_vector);
    while tempb != 0
        invariant
            j <= 16,
            aa == a as u32,
            bb == b as u32,
            bb < 0x10000,
            tempa == aa << (j as u32),
            tempb == bb >> (j as u32),
            result == clmul16(aa, bb, j),
        decreases tempb,
    {
        let ghost jj = j as u32;
        assert(bb < 0x10000 && jj <= 16 && (bb >> jj) != 0 ==> jj < 16) by (bit_vector);
        assert(jj < 16 ==> ((aa << jj) << 1u32) == aa << ((jj + 1) as u32)) by (bit_vector);
        assert(jj < 16 ==> ((bb >> jj) >> 1u32) == bb >> ((jj + 1) as u32)) by (bit_vector);
        assert(tempb != 0 ==> (tempb >> 1u32) < tempb) by (bit_vector);
        assert((tempb & 1 != 0) == ((tempb & 1) == 1)) by (bit_vector);
        if tempb & 1 != 0 {
            result = result ^ tempa;
        }
        tempa = tempa << 1u32;
        tempb = tempb >> 1u32;
        proof {
            j = j + 1;
        }
    }
    proof {
        lemma_clmul16_tail(aa, bb, j, 16);
    }
    result
}

fn mod_irreducible_16(a: u32) -> (r: u16)
    ensures
        r == reduce16_from(a, 31) as u16,
{
    let mut result: u32 = a;
    let mut i: u32 = 32;
    while i > 16
        invariant
            16 <= i <= 32,
            reduce16_from(result, i - 1) == reduce16_from(a, 31),
        decreases i,
    {
        i = i - 1;
        if result & (1u32 << i) != 0 {
            result = result ^ (IRREDUCIBLE_16 << (i - 16));
        }
    }
    result as u16
}

impl BinaryElem16 {
    pub fn new(value: u16) -> (r: Self)
        ensures
            r.value == value,
    {
        BinaryElem16 { value }
    }

    fn mul_elem(self, other: Self) -> (r: Self)
        ensures
            r == Self::spec_mul(self, other),
    {
        let product = poly_multiply_gf2_16(self.value, other.value);
        BinaryElem16 { value: mod_irreducible_16(product) }
    }

    /// `self^exponent` by square-and-multiply.
    pub fn pow(&self, exponent: u16) -> (r: Self)
        ensures
            r.value == pow16(self.value, exponent as nat),
    {
        let mut result = BinaryElem16 { value: 1 };
        let mut base = *self;
        let mut e = exponent;
        while e > 0
            invariant
                pow16_acc(result.value, base.value, e as nat) == pow16(self.value, exponent as nat),
            decreases e,
        {
            assert(e & 1 == e % 2 && e >> 1 == e / 2) by (bit_vector);
            if e & 1 == 1 {
                result = result.mul_elem(base);
            }
            base = base.mul_elem(base);
            e = e >> 1;
        }
        result
    }
}

/// `p ^ a` when `c`, else `p`.
pub open spec fn xor_if32(c: bool, p: u32, a: u32) -> u32 {
    if c {
        p ^ a
    } else {
        p
    }
}

/// The low `k` bits set.
pub open spec fn low_mask32(k: u32) -> u32 {
    ((1u32 << k) - 1) as u32
}

/// The bit-level facts that the GF(2^16) algebra below rests on.
#[verifier::rlimit(100)]
pub(crate) proof fn lemma_bv16(
    x: u32,
    y: u32,
    k: u32,
    i: u32,
    p: u32,
    q: u32,
    a: u32,
    b: u32,
    c1: bool,
    c2: bool,
    u: u16,
    v: u16,
)
    by (bit_vector)
    ensures
        ((((x ^ y) >> k) & 1) == 1) == ((((x >> k) & 1) == 1) != (((y >> k) & 1) == 1)),
        ((x ^ y) << k) == ((x << k) ^ (y << k)),
        xor_if32(c1 != c2, p ^ q, a) == (xor_if32(c1, p, a) ^ xor_if32(c2, q, a)),
        xor_if32(c1, p ^ q, a ^ b) == (xor_if32(c1, p, a) ^ xor_if32(c1, q, b)),
        16 <= k < 32 ==> reduce16_step(x ^ y, k) == (reduce16_step(x, k) ^ reduce16_step(y, k)),
        ((x ^ y) as u16) == ((x as u16) ^ (y as u16)),
        ((u ^ v) as u32) == ((u as u32) ^ (v as u32)),
        k < 16 && i < 16 ==> xor_if32(((x >> k) & 1) == 1, (x & low_mask32(k)) << i, (1u32 << i) << k) == ((x
            & low_mask32((k + 1) as u32)) << i),
        k < 16 ==> (x & low_mask32((k + 1) as u32)) == ((x & low_mask32(k)) ^ (if ((x >> k) & 1) == 1 {
            1u32 << k
        } else {
            0u32
        })),
        x < 0x10000 ==> (x & low_mask32(16)) == x,
        (x & low_mask32(0)) == 0,
        (0u32 << i) == 0,
        (p ^ 0u32) == p,
        (0u32 ^ 0u32) == 0,
{
}

pub(crate) proof fn lemma_clmul16_xor_right(a: u32, b: u32, c: u32, k: nat)
    requires
        k <= 32,
    ensures
        clmul16(a, b ^ c, k) == clmul16(a, b, k) ^ clmul16(a, c, k),
    decreases k,
{
    if k == 0 {
        lemma_bv16(0, 0, 0, 0, 0, 0, 0, 0, false, false, 0, 0);
    } else {
        let kk = (k - 1) as u32;
        lemma_clmul16_xor_right(a, b, c, (k - 1) as nat);
        let pb = clmul16(a, b, (k - 1) as nat);
        let pc = clmul16(a, c, (k - 1) as nat);
        lemma_bv16(b, c, kk, 0, pb, pc, a << kk, 0, ((b >> kk) & 1) == 1, ((c >> kk) & 1) == 1, 0, 0);
    }
}

pub(crate) proof fn lemma_clmul16_xor_left(a: u32, b: u32, c: u32, k: nat)
    requires
        k <= 32,
    ensures
        clmul16(a ^ b, c, k) == clmul16(a, c, k) ^ clmul16(b, c, k),
    decreases k,
{
    if k == 0 {
        lemma_bv16(0, 0, 0, 0, 0, 0, 0, 0, false, false, 0, 0);
    } else {
        let kk = (k - 1) as u32;
        lemma_clmul16_xor_left(a, b, c, (k - 1) as nat);
        let pa = clmul16(a, c, (k - 1) as nat);
        let pb = clmul16(b, c, (k - 1) as nat);
        lemma_bv16(a, b, kk, 0, pa, pb, a << kk, b << kk, ((c >> kk) & 1) == 1, false, 0, 0);
    }
}

pub(crate) proof fn lemma_reduce16_xor(r: u32, s: u32, i: int)
    requires
        i <= 31,
    ensures
        reduce16_from(r ^ s, i) == reduce16_from(r, i) ^ reduce16_from(s, i),
    decreases i,
{
    if i >= 16 {
        lemma_bv16(r, s, i as u32, 0, 0, 0, 0, 0, false, false, 0, 0);
        lemma_reduce16_xor(reduce16_step(r, i as u32), reduce16_step(s, i as u32), i - 1);
    }
}

/// Multiplication distributes over addition in GF(2^16).
proof fn lemma_mul16_distrib(a: u16, b: u16, c: u16)
    ensures
        mul16(a, b ^ c) == mul16(a, b) ^ mul16(a, c),
{
    lemma_bv16(0, 0, 0, 0, 0, 0, 0, 0, false, false, b, c);
    lemma_clmul16_xor_right(a as u32, b as u32, c as u32, 16);
    let x = clmul16(a as u32, b as u32, 16);
    let y = clmul16(a as u32, c as u32, 16);
    lemma_reduce16_xor(x, y, 31);
    lemma_bv16(reduce16_from(x, 31), reduce16_from(y, 31), 0, 0, 0, 0, 0, 0, false, false, 0, 0);
}

/// The carry-less product with the single bit `i` shifts the low bits.
pub(crate) proof fn lemma_clmul16_unit(i: u32, b: u32, k: nat)
    requires
        i < 16,
        k <= 16,
    ensures
        clmul16(1u32 << i, b, k) == (b & low_mask32(k as u32)) << i,
    decreases k,
{
    if k == 0 {
        lemma_bv16(b, 0, 0, i, 0, 0, 0, 0, false, false, 0, 0);
        lemma_bv16(0, 0, 0, i, 0, 0, 0, 0, false, false, 0, 0);
    } else {
        let kk = (k - 1) as u32;
        lemma_clmul16_unit(i, b, (k - 1) as nat);
        lemma_bv16(b, 0, kk, i, 0, 0, 0, 0, false, false, 0, 0);
        assert((kk + 1) as u32 == k as u32);
    }
}

/// The carry-less product of the low `k` bits of `a` with `b` is the
/// carry-less product of `b` with the low `k` bits of `a`.
proof fn lemma_clmul16_comm_prefix(a: u32, b: u32, k: nat)
    requires
        a < 0x10000,
        b < 0x10000,
        k <= 16,
    ensures
        clmul16(a & low_mask32(k as u32), b, 16) == clmul16(b, a, k),
    decreases k,
{
    if k == 0 {
        lemma_bv16(a, 0, 0, 0, 0, 0, 0, 0, false, false, 0, 0);
        lemma_clmul16_zero(b, 16);
    } else {
        let kk = (k - 1) as u32;
        lemma_clmul16_comm_prefix(a, b, (k - 1) as nat);
        lemma_bv16(a, 0, kk, 0, 0, 0, 0, 0, false, false, 0, 0);
        assert((kk + 1) as u32 == k as u32);
        let low = a & low_mask32(kk);
        let top = if ((a >> kk) & 1) == 1 {
            1u32 << kk
        } else {
            0u32
        };
        lemma_clmul16_xor_left(low, top, b, 16);
        let prev = clmul16(b, a, (k - 1) as nat);
        if ((a >> kk) & 1) == 1 {
            lemma_clmul16_unit(kk, b, 16);
            lemma_bv16(b, 0, kk, 0, 0, 0, 0, 0, false, false, 0, 0);
        } else {
            lemma_clmul16_zero(b, 16);
            lemma_bv16(0, 0, 0, 0, prev, 0, 0, 0, false, false, 0, 0);
        }
    }
}

/// Multiplication in GF(2^16) is commutative.
proof fn lemma_mul16_comm(a: u16, b: u16)
    ensures
        mul16(a, b) == mul16(b, a),
{
    let x = a as u32;
    let y = b as u32;
    lemma_clmul16_comm_prefix(x, y, 16);
    lemma_bv16(x, 0, 0, 0, 0, 0, 0, 0, false, false, 0, 0);
}

impl BinaryField for BinaryElem16 {
    open spec fn spec_order() -> nat {
        0x10000
    }

    open spec fn spec_value(self) -> nat {
        self.value as nat
    }

    open spec fn spec_zero() -> Self {
        BinaryElem16 { value: 0 }
    }

    open spec fn spec_one() -> Self {
        BinaryElem16 { value: 1 }
    }

    open spec fn spec_add(a: Self, b: Self) -> Self {
        BinaryElem16 { value: a.value ^ b.value }
    }

    open spec fn spec_mul(a: Self, b: Self) -> Self {
        BinaryElem16 { value: mul16(a.value, b.value) }
    }

    open spec fn spec_from_nat(n: nat) -> Self {
        BinaryElem16 { value: n as u16 }
    }

    open spec fn spec_from_u128(v: u128) -> Self {
        BinaryElem16 { value: v as u16 }
    }

    open spec fn spec_to_bytes(self) -> Seq<u8> {
        seq![(self.value % 256) as u8, (self.value / 256) as u8]
    }

    open spec fn spec_inverse(self) -> Self {
        if self.value == 0 {
            self
        } else {
            BinaryElem16 { value: pow16(self.value, 65534) }
        }
    }

    proof fn lemma_order() {
    }

    proof fn lemma_inverse_zero() {
    }

    proof fn lemma_value(x: Self) {
    }

    proof fn lemma_from_nat(n: nat) {
    }

    proof fn lemma_add_comm(a: Self, b: Self) {
        let (x, y) = (a.value, b.value);
        assert(x ^ y == y ^ x) by (bit_vector);
    }

    proof fn lemma_add_assoc(a: Self, b: Self, c: Self) {
        let (x, y, z) = (a.value, b.value, c.value);
        assert(x ^ (y ^ z) == (x ^ y) ^ z) by (bit_vector);
    }

    proof fn lemma_add_zero(a: Self) {
        let x = a.value;
        assert(x ^ 0u16 == x && 0u16 ^ x == x) by (bit_vector);
    }

    proof fn lemma_add_self(a: Self) {
        let x = a.value;
        assert(x ^ x == 0u16) by (bit_vector);
    }

    proof fn lemma_mul_zero(a: Self) {
        lemma_clmul16_zero(a.value as u32, 16);
        lemma_reduce16_small(0, 31);
    }

    proof fn lemma_mul_one(a: Self) {
        let x = a.value as u32;
        lemma_clmul16_one(x, 16);
        lemma_reduce16_small(x, 31);
        assert(x < 0x10000);
    }

    proof fn lemma_mul_comm(a: Self, b: Self) {
        lemma_mul16_comm(a.value, b.value);
    }

    proof fn lemma_mul_distrib(a: Self, b: Self, c: Self) {
        lemma_mul16_distrib(a.value, b.value, c.value);
    }

    proof fn lemma_mul_assoc(a: Self, b: Self, c: Self) {
        crate::field_algebra::lemma_mul16_assoc(a.value, b.value, c.value);
    }

    proof fn lemma_three_is_not_a_root() {
        crate::field_algebra::lemma_denominator_inverse_16();
    }

    proof fn lemma_three_denominator_inverse() {
        crate::field_algebra::lemma_denominator_inverse_16();
    }

    fn zero() -> (r: Self) {
        BinaryElem16 { value: 0 }
    }

    fn one() -> (r: Self) {
        BinaryElem16 { value: 1 }
    }

    fn add(self, other: Self) -> (r: Self) {
        BinaryElem16 { value: self.value ^ other.value }
    }

    fn mul(self, other: Self) -> (r: Self) {
        self.mul_elem(other)
    }

    fn equals(&self, other: &Self) -> (r: bool) {
        self.value == other.value
    }

    fn from_usize(n: usize) -> (r: Self) {
        BinaryElem16 { value: n as u16 }
    }

    fn from_u128(v: u128) -> (r: Self) {
        BinaryElem16 { value: v as u16 }
    }

    fn to_bytes(&self) -> (r: Vec<u8>) {
        let mut bytes: Vec<u8> = Vec::with_capacity(2);
        bytes.push((self.value % 256) as u8);
        bytes.push((self.value / 256) as u8);
        bytes
    }

    fn inverse(&self) -> (r: Result<Self, &'static str>) {
        if self.value == 0 {
            Err("Cannot compute inverse of zero")
        } else {
            Ok(self.pow(65534))
        }
    }

    fn random() -> (r: Self) {
        BinaryElem16 { value: random_u16() }
    }

    fn bits() -> (r: usize) {
        proof {
            lemma2_to64();
        }
        16
    }
}

// ---------------------------------------------------------------------------
// GF(2^32) modulo x^32 + x^15 + x^9 + x^7 + x^4 + x^3 + 1
// ---------------------------------------------------------------------------

pub const IRREDUCIBLE_32: u64 = 0x100008299;

/// Carry-less product of `a` and the low `k` bits of `b`.
pub open spec fn clmul32(a: u64, b: u64, k: nat) -> u64
    decreases k,
{
    if k == 0 {
        0
    } else {
        let prev = clmul32(a, b, (k - 1) as nat);
        if (b >> ((k - 1) as u64)) & 1 == 1 {
            prev ^ (a << ((k - 1) as u64))
        } else {
            prev
        }
    }
}

pub open spec fn reduce32_step(r: u64, i: u64) -> u64 {
    if r & (1u64 << i) != 0 {
        r ^ (IRREDUCIBLE_32 << ((i - 32) as u64))
    } else {
        r
    }
}

/// Clears bits `i, i-1, ..., 32` of `r` (highest first) by the irreducible.
pub open spec fn reduce32_from(r: u64, i: int) -> u64
    decreases i,
{
    if i < 32 {
        r
    } else {
        reduce32_from(reduce32_step(r, i as u64), i - 1)
    }
}

pub open spec fn mul32(a: u32, b: u32) -> u32 {
    reduce32_from(clmul32(a as u64, b as u64, 32), 63) as u32
}

/// Square-and-multiply from an accumulator: the value the exponentiation
/// loop reaches from `result` and `base` with exponent bits `e` left.
pub open spec fn pow32_acc(result: u32, base: u32, e: nat) -> u32
    decreases e,
{
    if e == 0 {
        result
    } else {
        pow32_acc(
            if e % 2 == 1 {
                mul32(result, base)
            } else {
                result
            },
            mul32(base, base),
            e / 2,
        )
    }
}

/// `x^e` by square-and-multiply.
pub open spec fn pow32(x: u32, e: nat) -> u32 {
    pow32_acc(1, x, e)
}

#[derive(Clone, Copy, Debug, PartialEq, Eq, Structural, Hash)]
pub struct BinaryElem32 {
    pub value: u32,
}

pub(crate) proof fn lemma_clmul32_tail(a: u64, b: u64, j: nat, k: nat)
    requires
        j <= k <= 64,
        b >> (j as u64) == 0,
    ensures
        clmul32(a, b, k) == clmul32(a, b, j),
    decreases k,
{
    if k > j {
        lemma_clmul32_tail(a, b, j, (k - 1) as nat);
        let jj = j as u64;
        let kk = (k - 1) as u64;
        assert((b >> jj) == 0 && jj <= kk && kk < 64 ==> (b >> kk) & 1 == 0) by (bit_vector);
    }
}

pub(crate) proof fn lemma_clmul32_zero(a: u64, k: nat)
    requires
        k <= 64,
    ensures
        clmul32(a, 0, k) == 0,
        clmul32(0, a, k) == 0,
    decreases k,
{
    if k > 0 {
        lemma_clmul32_zero(a, (k - 1) as nat);
        let kk = (k - 1) as u64;
        assert((0u64 >> kk) & 1 == 0 && (0u64 << kk) == 0 && (0u64 ^ 0u64) == 0) by (bit_vector);
    }
}

pub(crate) proof fn lemma_clmul32_one(a: u64, k: nat)
    requires
        1 <= k <= 64,
    ensures
        clmul32(a, 1, k) == a,
    decreases k,
{
    if k == 1 {
        assert(clmul32(a, 1, 0) == 0);
        assert(((1u64 >> 0u64) & 1) == 1 && (0u64 ^ (a << 0u64)) == a) by (bit_vector);
        assert(((k - 1) as u64) == 0u64);
    } else {
        lemma_clmul32_one(a, (k - 1) as nat);
        let kk = (k - 1) as u64;
        assert(kk >= 1 && kk < 64 ==> (1u64 >> kk) & 1 == 0) by (bit_vector);
    }
}

pub(crate) proof fn lemma_reduce32_small(r: u64, i: int)
    requires
        r < 0x100000000,
        i <= 63,
    ensures
        reduce32_from(r, i) == r,
    decreases i,
{
    if i >= 32 {
        let ii = i as u64;
        assert(r < 0x100000000 && 32 <= ii && ii < 64 ==> r & (1u64 << ii) == 0) by (bit_vector);
        lemma_reduce32_small(r, i - 1);
    }
}

fn poly_multiply_gf2_32(a: u32, b: u32) -> (r: u64)
    ensures
        r == clmul32(a as u64, b as u64, 32),
{
    let mut result: u64 = 0;
    let mut tempa: u64 = a as u64;
    let mut tempb: u64 = b as u64;
    let ghost aa = a as u64;
    let ghost bb = b as u64;
    let ghost mut j: nat = 0;
    assert(aa << 0u64 == aa && bb >> 0u64 == bb) by (bit_vector);
    while tempb != 0
        invariant
            j <= 32,
            aa == a as u64,
            bb == b as u64,
            bb < 0x100000000,
            tempa == aa << (j as u64),
            tempb == bb >> (j as u64),
            result == clmul32(aa, bb, j),
        decreases tempb,
    {
        let ghost jj = j as u64;
        assert(bb < 0x100000000 && jj <= 32 && (bb >> jj) != 0 ==> jj < 32) by (bit_vector);
        assert(jj < 32 ==> ((aa << jj) << 1u64) == aa << ((jj + 1) as u64)) by (bit_vector);
        assert(jj < 32 ==> ((bb >> jj) >> 1u64) == bb >> ((jj + 1) as u64)) by (bit_vector);
        assert(tempb != 0 ==> (tempb >> 1u64) < tempb) by (bit_vector);
        assert((tempb & 1 != 0) == ((tempb & 1) == 1)) by (bit_vector);
        if tempb & 1 != 0 {
            result = result ^ tempa;
        }
        tempa = tempa << 1u64;
        tempb = tempb >> 1u64;
        proof {
            j = j + 1;
        }
    }
    proof {
        lemma_clmul32_tail(aa, bb, j, 32);
    }
    result
}

fn mod_irreducible_32(a: u64) -> (r: u32)
    ensures
        r == reduce32_from(a, 63) as u32,
{
    let mut result: u64 = a;
    let mut i: u64 = 64;
    while i > 32
        invariant
            32 <= i <= 64,
            reduce32_from(result, i - 1) == reduce32_from(a, 63),
        decreases i,
    {
        i = i - 1;
        if result & (1u64 << i) != 0 {
            result = result ^ (IRREDUCIBLE_32 << (i - 32));
        }
    }
    result as u32
}

impl BinaryElem32 {
    pub fn new(value: u32) -> (r: Self)
        ensures
            r.value == value,
    {
        BinaryElem32 { value }
    }

    fn mul_elem(self, other: Self) -> (r: Self)
        ensures
            r == Self::spec_mul(self, other),
    {
        let product = poly_multiply_gf2_32(self.value, other.value);
        BinaryElem32 { value: mod_irreducible_32(product) }
    }

    /// `self^exponent` by square-and-multiply.
    pub fn pow(&self, exponent: u32) -> (r: Self)
        ensures
            r.value == pow32(self.value, exponent as nat),
    {
        let mut result = BinaryElem32 { value: 1 };
        let mut base = *self;
        let mut e = exponent;
        while e > 0
            invariant
                pow32_acc(result.value, base.value, e as nat) == pow32(self.value, exponent as nat),
            decreases e,
        {
            assert(e & 1 == e % 2 && e >> 1 == e / 2) by (bit_vector);
            if e & 1 == 1 {
                result = result.mul_elem(base);
            }
            base = base.mul_elem(base);
            e = e >> 1;
        }
        result
    }
}

/// `p ^ a` when `c`, else `p`.
pub open spec fn xor_if64(c: bool, p: u64, a: u64) -> u64 {
    if c {
        p ^ a
    } else {
        p
    }
}

/// The low `k` bits set.
pub open spec fn low_mask64(k: u64) -> u64 {
    ((1u64 << k) - 1) as u64
}

/// The bit-level facts that the GF(2^32) algebra below rests on.
#[verifier::rlimit(100)]
pub(crate) proof fn lemma_bv32(
    x: u64,
    y: u64,
    k: u64,
    i: u64,
    p: u64,
    q: u64,
    a: u64,
    b: u64,
    c1: bool,
    c2: bool,
    u: u32,
    v: u32,
)
    by (bit_vector)
    ensures
        ((((x ^ y) >> k) & 1) == 1) == ((((x >> k) & 1) == 1) != (((y >> k) & 1) == 1)),
        ((x ^ y) << k) == ((x << k) ^ (y << k)),
        xor_if64(c1 != c2, p ^ q, a) == (xor_if64(c1, p, a) ^ xor_if64(c2, q, a)),
        xor_if64(c1, p ^ q, a ^ b) == (xor_if64(c1, p, a) ^ xor_if64(c1, q, b)),
        32 <= k < 64 ==> reduce32_step(x ^ y, k) == (reduce32_step(x, k) ^ reduce32_step(y, k)),
        ((x ^ y) as u32) == ((x as u32) ^ (y as u32)),
        ((u ^ v) as u64) == ((u as u64) ^ (v as u64)),
        k < 32 && i < 32 ==> xor_if64(((x >> k) & 1) == 1, (x & low_mask64(k)) << i, (1u64 << i) << k) == ((x
            & low_mask64((k + 1) as u64)) << i),
        k < 32 ==> (x & low_mask64((k + 1) as u64)) == ((x & low_mask64(k)) ^ (if ((x >> k) & 1) == 1 {
            1u64 << k
        } else {
            0u64
        })),
        x < 0x100000000 ==> (x & low_mask64(32)) == x,
        (x & low_mask64(0)) == 0,
        (0u64 << i) == 0,
        (p ^ 0u64) == p,
        (0u64 ^ 0u64) == 0,
{
}

pub(crate) proof fn lemma_clmul32_xor_right(a: u64, b: u64, c: u64, k: nat)
    requires
        k <= 64,
    ensures
        clmul32(a, b ^ c, k) == clmul32(a, b, k) ^ clmul32(a, c, k),
    decreases k,
{
    if k == 0 {
        lemma_bv32(0, 0, 0, 0, 0, 0, 0, 0, false, false, 0, 0);
    } else {
        let kk = (k - 1) as u64;
        lemma_clmul32_xor_right(a, b, c, (k - 1) as nat);
        let pb = clmul32(a, b, (k - 1) as nat);
        let pc = clmul32(a, c, (k - 1) as nat);
        lemma_bv32(b, c, kk, 0, pb, pc, a << kk, 0, ((b >> kk) & 1) == 1, ((c >> kk) & 1) == 1, 0, 0);
    }
}

pub(crate) proof fn lemma_clmul32_xor_left(a: u64, b: u64, c: u64, k: nat)
    requires
        k <= 32,
    ensures
        clmul32(a ^ b, c, k) == clmul32(a, c, k) ^ clmul32(b, c, k),
    decreases k,
{
    if k == 0 {
        lemma_bv32(0, 0, 0, 0, 0, 0, 0, 0, false, false, 0, 0);
    } else {
        let kk = (k - 1) as u64;
        lemma_clmul32_xor_left(a, b, c, (k - 1) as nat);
        let pa = clmul32(a, c, (k - 1) as nat);
        let pb = clmul32(b, c, (k - 1) as nat);
        lemma_bv32(a, b, kk, 0, pa, pb, a << kk, b << kk, ((c >> kk) & 1) == 1, false, 0, 0);
    }
}

pub(crate) proof fn lemma_reduce32_xor(r: u64, s: u64, i: int)
    requires
        i <= 63,
    ensures
        reduce32_from(r ^ s, i) == reduce32_from(r, i) ^ reduce32_from(s, i),
    decreases i,
{
    if i >= 32 {
        lemma_bv32(r, s, i as u64, 0, 0, 0, 0, 0, false, false, 0, 0);
        lemma_reduce32_xor(reduce32_step(r, i as u64), reduce32_step(s, i as u64), i - 1);
    }
}

/// Multiplication distributes over addition in GF(2^32).
proof fn lemma_mul32_distrib(a: u32, b: u32, c: u32)
    ensures
        mul32(a, b ^ c) == mul32(a, b) ^ mul32(a, c),
{
    lemma_bv32(0, 0, 0, 0, 0, 0, 0, 0, false, false, b, c);
    lemma_clmul32_xor_right(a as u64, b as u64, c as u64, 32);
    let x = clmul32(a as u64, b as u64, 32);
    let y = clmul32(a as u64, c as u64, 32);
    lemma_reduce32_xor(x, y, 63);
    lemma_bv32(reduce32_from(x, 63), reduce32_from(y, 63), 0, 0, 0, 0, 0, 0, false, false, 0, 0);
}

/// The carry-less product with the single bit `i` shifts the low bits.
pub(crate) proof fn lemma_clmul32_unit(i: u64, b: u64, k: nat)
    requires
        i < 32,
        k <= 32,
    ensures
        clmul32(1u64 << i, b, k) == (b & low_mask64(k as u64)) << i,
    decreases k,
{
    if k == 0 {
        lemma_bv32(b, 0, 0, i, 0, 0, 0, 0, false, false, 0, 0);
        lemma_bv32(0, 0, 0, i, 0, 0, 0, 0, false, false, 0, 0);
    } else {
        let kk = (k - 1) as u64;
        lemma_clmul32_unit(i, b, (k - 1) as nat);
        lemma_bv32(b, 0, kk, i, 0, 0, 0, 0, false, false, 0, 0);
        assert((kk + 1) as u64 == k as u64);
    }
}

/// The carry-less product of the low `k` bits of `a` with `b` is the
/// carry-less product of `b` with the low `k` bits of `a`.
proof fn lemma_clmul32_comm_prefix(a: u64, b: u64, k: nat)
    requires
        a < 0x100000000,
        b < 0x100000000,
        k <= 32,
    ensures
        clmul32(a & low_mask64(k as u64), b, 32) == clmul32(b, a, k),
    decreases k,
{
    if k == 0 {
        lemma_bv32(a, 0, 0, 0, 0, 0, 0, 0, false, false, 0, 0);
        lemma_clmul32_zero(b, 32);
    } else {
        let kk = (k - 1) as u64;
        lemma_clmul32_comm_prefix(a, b, (k - 1) as nat);
        lemma_bv32(a, 0, kk, 0, 0, 0, 0, 0, false, false, 0, 0);
        assert((kk + 1) as u64 == k as u64);
        let low = a & low_mask64(kk);
        let top = if ((a >> kk) & 1) == 1 {
            1u64 << kk
        } else {
            0u64
        };
        lemma_clmul32_xor_left(low, top, b, 32);
        let prev = clmul32(b, a, (k - 1) as nat);
        if ((a >> kk) & 1) == 1 {
            lemma_clmul32_unit(kk, b, 32);
            lemma_bv32(b, 0, kk, 0, 0, 0, 0, 0, false, false, 0, 0);
        } else {
            lemma_clmul32_zero(b, 32);
            lemma_bv32(0, 0, 0, 0, prev, 0, 0, 0, false, false, 0, 0);
        }
    }
}

/// Multiplication in GF(2^32) is commutative.
proof fn lemma_mul32_comm(a: u32, b: u32)
    ensures
        mul32(a, b) == mul32(b, a),
{
    let x = a as u64;
    let y = b as u64;
    lemma_clmul32_comm_prefix(x, y, 32);
    lemma_bv32(x, 0, 0, 0, 0, 0, 0, 0, false, false, 0, 0);
}

impl BinaryField for BinaryElem32 {
    open spec fn spec_order() -> nat {
        0x100000000
    }

    open spec fn spec_value(self) -> nat {
        self.value as nat
    }

    open spec fn spec_zero() -> Self {
        BinaryElem32 { value: 0 }
    }

    open spec fn spec_one() -> Self {
        BinaryElem32 { value: 1 }
    }

    open spec fn spec_add(a: Self, b: Self) -> Self {
        BinaryElem32 { value: a.value ^ b.value }
    }

    open spec fn spec_mul(a: Self, b: Self) -> Self {
        BinaryElem32 { value: mul32(a.value, b.value) }
    }

    open spec fn spec_from_nat(n: nat) -> Self {
        BinaryElem32 { value: n as u32 }
    }

    open spec fn spec_from_u128(v: u128) -> Self {
        BinaryElem32 { value: v as u32 }
    }

    open spec fn spec_to_bytes(self) -> Seq<u8> {
        seq![
            (self.value % 0x100) as u8,
            ((self.value / 0x100) % 0x100) as u8,
            ((self.value / 0x10000) % 0x100) as u8,
            (self.value / 0x1000000) as u8,
        ]
    }

    open spec fn spec_inverse(self) -> Self {
        if self.value == 0 {
            self
        } else {
            BinaryElem32 { value: pow32(self.value, 4294967294) }
        }
    }

    proof fn lemma_order() {
    }

    proof fn lemma_inverse_zero() {
    }

    proof fn lemma_value(x: Self) {
    }

    proof fn lemma_from_nat(n: nat) {
    }

    proof fn lemma_add_comm(a: Self, b: Self) {
        let (x, y) = (a.value, b.value);
        assert(x ^ y == y ^ x) by (bit_vector);
    }

    proof fn lemma_add_assoc(a: Self, b: Self, c: Self) {
        let (x, y, z) = (a.value, b.value, c.value);
        assert(x ^ (y ^ z) == (x ^ y) ^ z) by (bit_vector);
    }

    proof fn lemma_add_zero(a: Self) {
        let x = a.value;
        assert(x ^ 0u32 == x && 0u32 ^ x == x) by (bit_vector);
    }

    proof fn lemma_add_self(a: Self) {
        let x = a.value;
        assert(x ^ x == 0u32) by (bit_vector);
    }

    proof fn lemma_mul_zero(a: Self) {
        lemma_clmul32_zero(a.value as u64, 32);
        lemma_reduce32_small(0, 63);
    }

    proof fn lemma_mul_one(a: Self) {
        let x = a.value as u64;
        lemma_clmul32_one(x, 32);
        lemma_reduce32_small(x, 63);
        assert(x < 0x100000000);
    }

    proof fn lemma_mul_comm(a: Self, b: Self) {
        lemma_mul32_comm(a.value, b.value);
    }

    proof fn lemma_mul_distrib(a: Self, b: Self, c: Self) {
        lemma_mul32_distrib(a.value, b.value, c.value);
    }

    proof fn lemma_mul_assoc(a: Self, b: Self, c: Self) {
        crate::field_algebra::lemma_mul32_assoc(a.value, b.value, c.value);
    }

    proof fn lemma_three_is_not_a_root() {
        crate::field_algebra::lemma_denominator_inverse_32();
    }

    proof fn lemma_three_denominator_inverse() {
        crate::field_algebra::lemma_denominator_inverse_32();
    }

    fn zero() -> (r: Self) {
        BinaryElem32 { value: 0 }
    }

    fn one() -> (r: Self) {
        BinaryElem32 { value: 1 }
    }

    fn add(self, other: Self) -> (r: Self) {
        BinaryElem32 { value: self.value ^ other.value }
    }

    fn mul(self, other: Self) -> (r: Self) {
        self.mul_elem(other)
    }

    fn equals(&self, other: &Self) -> (r: bool) {
        self.value == other.value
    }

    fn from_usize(n: usize) -> (r: Self) {
        BinaryElem32 { value: n as u32 }
    }

    fn from_u128(v: u128) -> (r: Self) {
        BinaryElem32 { value: v as u32 }
    }

    fn to_bytes(&self) -> (r: Vec<u8>) {
        let mut bytes: Vec<u8> = Vec::with_capacity(4);
        bytes.push((self.value % 0x100) as u8);
        bytes.push(((self.value / 0x100) % 0x100) as u8);
        bytes.push(((self.value / 0x10000) % 0x100) as u8);
        bytes.push((self.value / 0x1000000) as u8);
        bytes
    }

    fn inverse(&self) -> (r: Result<Self, &'static str>) {
        if self.value == 0 {
            Err("Cannot compute inverse of zero")
        } else {
            Ok(self.pow(4294967294))
        }
    }

    fn random() -> (r: Self) {
        BinaryElem32 { value: random_u32() }
    }

    fn bits() -> (r: usize) {
        proof {
            lemma2_to64();
        }
        32
    }
}


/// `x` multiplied by itself `e` times, one factor at a time.
pub open spec fn spec_power<F: BinaryField>(x: F, e: nat) -> F
    decreases e,
{
    if e == 0 {
        F::spec_one()
    } else {
        F::spec_mul(spec_power(x, (e - 1) as nat), x)
    }
}

/// `(x * x)^k = x^(2 k)`.
pub proof fn lemma_power_square<F: BinaryField>(x: F, k: nat)
    ensures
        spec_power(F::spec_mul(x, x), k) == spec_power(x, 2 * k),
    decreases k,
{
    if k > 0 {
        lemma_power_square(x, (k - 1) as nat);
        let p = spec_power(x, (2 * (k - 1)) as nat);
        assert((2 * k - 1) as nat == (2 * (k - 1) + 1) as nat);
        assert(spec_power(x, 2 * k) == F::spec_mul(spec_power(x, (2 * k - 1) as nat), x));
        assert(spec_power(x, (2 * k - 1) as nat) == F::spec_mul(p, x));
        F::lemma_mul_assoc(p, x, x);
    }
}

proof fn lemma_pow16_acc_power(r: u16, b: u16, e: nat)
    ensures
        (BinaryElem16 { value: pow16_acc(r, b, e) }) == BinaryElem16::spec_mul((BinaryElem16 { value: r }), spec_power((BinaryElem16 { value: b }), e)),
    decreases e,
{
    let er = BinaryElem16 { value: r };
    let eb = BinaryElem16 { value: b };
    if e == 0 {
        BinaryElem16::lemma_mul_one(er);
    } else {
        let r2 = if e % 2 == 1 {
            mul16(r, b)
        } else {
            r
        };
        let b2 = mul16(b, b);
        lemma_pow16_acc_power(r2, b2, e / 2);
        assert(pow16_acc(r, b, e) == pow16_acc(r2, b2, e / 2));
        assert((BinaryElem16 { value: b2 }) == BinaryElem16::spec_mul(eb, eb));
        lemma_power_square(eb, e / 2);
        if e % 2 == 1 {
            assert(2 * (e / 2) == e - 1);
            let p = spec_power(eb, (e - 1) as nat);
            assert((BinaryElem16 { value: r2 }) == BinaryElem16::spec_mul(er, eb));
            BinaryElem16::lemma_mul_assoc(er, eb, p);
            BinaryElem16::lemma_mul_comm(eb, p);
            assert(spec_power(eb, e) == BinaryElem16::spec_mul(p, eb));
        } else {
            assert(2 * (e / 2) == e);
        }
    }
}

/// Exponentiation in GF(2^16) is repeated multiplication: `x^0 = 1`
/// and `x^(e + 1) = x^e * x`.
pub proof fn lemma_pow16_law(x: u16, e: nat)
    ensures
        pow16(x, 0) == 1,
        pow16(x, e + 1) == mul16(pow16(x, e), x),
{
    let ex = BinaryElem16 { value: x };
    let one = BinaryElem16 { value: 1 };
    lemma_pow16_acc_power(1, x, e);
    lemma_pow16_acc_power(1, x, e + 1);
    BinaryElem16::lemma_mul_comm(one, spec_power(ex, e));
    BinaryElem16::lemma_mul_one(spec_power(ex, e));
    BinaryElem16::lemma_mul_comm(one, spec_power(ex, e + 1));
    BinaryElem16::lemma_mul_one(spec_power(ex, e + 1));
    assert(spec_power(ex, e + 1) == BinaryElem16::spec_mul(spec_power(ex, e), ex));
}

proof fn lemma_pow32_acc_power(r: u32, b: u32, e: nat)
    ensures
        (BinaryElem32 { value: pow32_acc(r, b, e) }) == BinaryElem32::spec_mul((BinaryElem32 { value: r }), spec_power((BinaryElem32 { value: b }), e)),
    decreases e,
{
    let er = BinaryElem32 { value: r };
    let eb = BinaryElem32 { value: b };
    if e == 0 {
        BinaryElem32::lemma_mul_one(er);
    } else {
        let r2 = if e % 2 == 1 {
            mul32(r, b)
        } else {
            r
        };
        let b2 = mul32(b, b);
        lemma_pow32_acc_power(r2, b2, e / 2);
        assert(pow32_acc(r, b, e) == pow32_acc(r2, b2, e / 2));
        assert((BinaryElem32 { value: b2 }) == BinaryElem32::spec_mul(eb, eb));
        lemma_power_square(eb, e / 2);
        if e % 2 == 1 {
            assert(2 * (e / 2) == e - 1);
            let p = spec_power(eb, (e - 1) as nat);
            assert((BinaryElem32 { value: r2 }) == BinaryElem32::spec_mul(er, eb));
            BinaryElem32::lemma_mul_assoc(er, eb, p);
            BinaryElem32::lemma_mul_comm(eb, p);
            assert(spec_power(eb, e) == BinaryElem32::spec_mul(p, eb));
        } else {
            assert(2 * (e / 2) == e);
        }
    }
}

/// Exponentiation in GF(2^32) is repeated multiplication: `x^0 = 1`
/// and `x^(e + 1) = x^e * x`.
pub proof fn lemma_pow32_law(x: u32, e: nat)
    ensures
        pow32(x, 0) == 1,
        pow32(x, e + 1) == mul32(pow32(x, e), x),
{
    let ex = BinaryElem32 { value: x };
    let one = BinaryElem32 { value: 1 };
    lemma_pow32_acc_power(1, x, e);
    lemma_pow32_acc_power(1, x, e + 1);
    BinaryElem32::lemma_mul_comm(one, spec_power(ex, e));
    BinaryElem32::lemma_mul_one(spec_power(ex, e));
    BinaryElem32::lemma_mul_comm(one, spec_power(ex, e + 1));
    BinaryElem32::lemma_mul_one(spec_power(ex, e + 1));
    assert(spec_power(ex, e + 1) == BinaryElem32::spec_mul(spec_power(ex, e), ex));
}

} // verus!
