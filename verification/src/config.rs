//! The hard-coded parameter sets for polynomials of `2^20` and `2^24`
//! coefficients, and what the prover and verifier need of parameters.
use crate::binary_fft::{is_pow2, lemma_pow2_is_pow2};
use crate::binary_field::{BinaryElem16, BinaryElem32, BinaryField};
use crate::data_structures::{ProverConfig, VerifierConfig};
use crate::reed_solomon::ReedSolomonEncoding;
use vstd::arithmetic::power2::*;
use vstd::prelude::*;

verus! {

/// The number of queries per opening.
pub const NUM_QUERIES: usize = 148;

/// The sum of the first `i` round counts.
pub open spec fn ks_sum(ks: Seq<usize>, i: nat) -> nat
    decreases i,
{
    if i == 0 || i > ks.len() {
        0
    } else {
        ks_sum(ks, (i - 1) as nat) + ks[i - 1] as nat
    }
}

/// Committing `2^nv` values as a matrix of `m` rows and `n` columns with
/// the code `rs` fits: the values fill at most the matrix, the code takes
/// columns of `m` symbols to `4 m`, the sizes fit the machine, and there
/// are enough rows for the distinct queries.
pub open spec fn commit_ok<F: BinaryField>(m: usize, n: usize, rs: ReedSolomonEncoding<F>, nv: nat) -> bool {
    &&& n * m <= pow2(nv)
    &&& 4 * m == pow2(rs.spec_log_block_length())
    &&& 4 * m <= usize::MAX / 64
    &&& n * (4 * m) <= usize::MAX
    &&& NUM_QUERIES <= 4 * m
}

/// The number of variables left before recursive step `i`.
pub open spec fn vars_before_step<F: BinaryField>(c: ProverConfig<F>, log_n: nat, i: nat) -> int {
    log_n - c.initial_k - ks_sum(c.ks@, i)
}

/// The prover's parameters fit a polynomial of `2^log_n` coefficients: at
/// least one recursive step; the first `initial_k` variables are fixed
/// before the first commitment and `ks[i]` more in step `i`, always leaving
/// at least one; each commitment's matrix has `2^k` columns for the `k`
/// variables folded against its rows and fits its code; and the subspace
/// values of the remaining variables fit the field.
pub open spec fn prover_config_ok<F: BinaryField>(c: ProverConfig<F>, log_n: nat) -> bool {
    let steps = c.recursive_steps as int;
    &&& 1 <= steps
    &&& c.dims@.len() >= steps
    &&& c.ks@.len() >= steps
    &&& c.reed_solomon_codes@.len() >= steps
    &&& 1 <= c.initial_k < log_n
    &&& c.initial_dims.1 == pow2(c.initial_k as nat)
    &&& commit_ok(c.initial_dims.0, c.initial_dims.1, c.initial_reed_solomon, log_n)
    &&& pow2((log_n - c.initial_k) as nat) < F::spec_order()
    &&& forall|i: int|
        0 <= i < steps ==> {
            let nv = vars_before_step(c, log_n, i as nat);
            &&& #[trigger] c.ks@[i] >= 1
            &&& nv - c.ks@[i] >= 1
            &&& c.dims@[i].1 == pow2(c.ks@[i] as nat)
            &&& commit_ok(c.dims@[i].0, c.dims@[i].1, c.reed_solomon_codes@[i], nv as nat)
        }
}

/// The verifier's parameters are usable with the field `F`: at least one
/// recursive step; the query ranges (four times the message lengths) hold
/// enough distinct queries and fit the field and the machine; and the
/// Lagrange bases of the folding challenges fit the machine.
pub open spec fn verifier_config_ok<F: BinaryField>(c: VerifierConfig) -> bool {
    let steps = c.recursive_steps as int;
    &&& 1 <= steps
    &&& c.log_dims@.len() >= steps
    &&& c.ks@.len() >= steps
    &&& 1 <= c.initial_k
    &&& pow2(c.initial_k as nat) <= usize::MAX
    &&& NUM_QUERIES <= pow2((c.initial_dim + 2) as nat)
    &&& pow2((c.initial_dim + 2) as nat) <= F::spec_order()
    &&& pow2((c.initial_dim + 2) as nat) <= usize::MAX
    &&& forall|i: int|
        0 <= i < steps ==> {
            &&& #[trigger] c.ks@[i] >= 1
            &&& pow2(c.ks@[i] as nat) <= usize::MAX
            &&& NUM_QUERIES <= pow2((c.log_dims@[i] + 2) as nat)
            &&& pow2((c.log_dims@[i] + 2) as nat) <= F::spec_order()
            &&& pow2((c.log_dims@[i] + 2) as nat) <= usize::MAX
        }
}

/// One Reed-Solomon code of rate 1/4 per recursive step.
fn codes_for<F: BinaryField>(dims: &Vec<(usize, usize)>, recursive_steps: usize) -> (r: Vec<ReedSolomonEncoding<F>>)
    requires
        recursive_steps <= dims@.len(),
        forall|i: int|
            0 <= i < recursive_steps ==> {
                &&& is_pow2(#[trigger] dims@[i].0 as nat)
                &&& 4 * dims@[i].0 <= F::spec_order()
                &&& 4 * dims@[i].0 <= usize::MAX / 2
            },
    ensures
        r@.len() == recursive_steps,
        forall|i: int|
            0 <= i < recursive_steps ==> {
                &&& pow2(#[trigger] r@[i].spec_log_message_length()) == dims@[i].0
                &&& pow2(r@[i].spec_log_block_length()) == 4 * dims@[i].0
            },
{
    let inv_rate: usize = 4;
    let mut reed_solomon_codes: Vec<ReedSolomonEncoding<F>> = Vec::with_capacity(recursive_steps);
    let mut i: usize = 0;
    while i < recursive_steps
        invariant
            i <= recursive_steps,
            inv_rate == 4,
            recursive_steps <= dims@.len(),
            forall|t: int|
                0 <= t < recursive_steps ==> {
                    &&& is_pow2(#[trigger] dims@[t].0 as nat)
                    &&& 4 * dims@[t].0 <= F::spec_order()
                    &&& 4 * dims@[t].0 <= usize::MAX / 2
                },
            reed_solomon_codes@.len() == i,
            forall|t: int|
                0 <= t < i ==> {
                    &&& pow2(#[trigger] reed_solomon_codes@[t].spec_log_message_length()) == dims@[t].0
                    &&& pow2(reed_solomon_codes@[t].spec_log_block_length()) == 4 * dims@[t].0
                },
        decreases recursive_steps - i,
    {
        let m = dims[i].0;
        proof {
            assert(is_pow2(dims@[i as int].0 as nat));
            assert(4 * m <= usize::MAX / 2);
            crate::binary_fft::lemma_is_pow2_log2(m as nat);
            let k = crate::binary_fft::log2(m as nat);
            lemma_pow2_adds(k, 2);
            lemma2_to64();
            lemma_pow2_is_pow2(k + 2);
            assert(pow2(k + 2) == m * 4);
        }
        let block = m * inv_rate;
        reed_solomon_codes.push(ReedSolomonEncoding::new(m, block));
        i = i + 1;
    }
    reed_solomon_codes
}

/// The parameters for `2^20` coefficients: a `2^14 x 2^6` matrix, one
/// recursive step with a `2^10 x 2^4` matrix.
pub fn hardcoded_config_20<F: BinaryField>() -> (r: ProverConfig<F>)
    ensures
        r.recursive_steps == 1,
        r.initial_dims == (16384usize, 64usize),
        r.dims@ == seq![(1024usize, 16usize)],
        r.initial_k == 6,
        r.ks@ == seq![4usize],
        pow2(r.initial_reed_solomon.spec_log_message_length()) == 16384,
        pow2(r.initial_reed_solomon.spec_log_block_length()) == 65536,
        r.reed_solomon_codes@.len() == 1,
        pow2(r.reed_solomon_codes@[0].spec_log_message_length()) == 1024,
        pow2(r.reed_solomon_codes@[0].spec_log_block_length()) == 4096,
        prover_config_ok(r, 20),
{
    let recursive_steps: usize = 1;
    let inv_rate: usize = 4;
    let mut dims: Vec<(usize, usize)> = Vec::with_capacity(recursive_steps);
    let initial_dims: (usize, usize) = (16384, 64);
    dims.push((1024, 16));
    let mut ks: Vec<usize> = Vec::with_capacity(recursive_steps);
    let initial_k: usize = 6;
    ks.push(4);
    proof {
        lemma2_to64();
        F::lemma_order();
        lemma_pow2_is_pow2(14);
        lemma_pow2_is_pow2(16);
        lemma_pow2_is_pow2(10);
    }
    let initial_reed_solomon: ReedSolomonEncoding<F> = ReedSolomonEncoding::new(
        initial_dims.0,
        initial_dims.0 * inv_rate,
    );
    let reed_solomon_codes = codes_for::<F>(&dims, recursive_steps);
    let r = ProverConfig { recursive_steps, initial_dims, dims, initial_k, ks, initial_reed_solomon, reed_solomon_codes };
    proof {
        assert(ks_sum(r.ks@, 0) == 0);
        assert(vars_before_step(r, 20, 0) == 14);
        assert(pow2(r.reed_solomon_codes@[0].spec_log_message_length()) == 1024);
        assert(pow2(r.reed_solomon_codes@[0].spec_log_block_length()) == 4096);
        assert(commit_ok(r.initial_dims.0, r.initial_dims.1, r.initial_reed_solomon, 20));
        assert(r.initial_dims.1 == pow2(6));
        assert(pow2(14) < F::spec_order());
        assert(commit_ok(r.dims@[0].0, r.dims@[0].1, r.reed_solomon_codes@[0], 14));
    }
    r
}

/// The verifier's parameters for `2^20` coefficients.
pub fn hardcoded_config_20_verifier() -> (r: VerifierConfig)
    ensures
        verifier_config_ok::<BinaryElem16>(r),
        verifier_config_ok::<BinaryElem32>(r),
        r.recursive_steps == 1,
        r.initial_dim == 14,
        r.log_dims@ == seq![10usize],
        r.initial_k == 6,
        r.ks@ == seq![4usize],
{
    let recursive_steps: usize = 1;
    let mut log_rs_dims: Vec<usize> = Vec::with_capacity(recursive_steps);
    let initial_dim: usize = 14;
    log_rs_dims.push(10);
    let mut ks: Vec<usize> = Vec::with_capacity(recursive_steps);
    let initial_k: usize = 6;
    ks.push(4);
    let r = VerifierConfig { recursive_steps, initial_dim, log_dims: log_rs_dims, initial_k, ks };
    proof {
        lemma_config_20_verifier_ok::<BinaryElem16>(r);
        lemma_config_20_verifier_ok::<BinaryElem32>(r);
    }
    r
}

/// The parameters for `2^24` coefficients: a `2^18 x 2^6` matrix, then
/// recursive steps with `2^14 x 2^4` and `2^10 x 2^4` matrices. Blocks of
/// `2^20` symbols need a field of at least `2^20` elements.
pub fn hardcoded_config_24<F: BinaryField>() -> (r: ProverConfig<F>)
    requires
        F::spec_order() >= 0x100000,
    ensures
        r.recursive_steps == 2,
        r.initial_dims == (262144usize, 64usize),
        r.dims@ == seq![(16384usize, 16usize), (1024usize, 16usize)],
        r.initial_k == 6,
        r.ks@ == seq![4usize, 4usize],
        pow2(r.initial_reed_solomon.spec_log_message_length()) == 262144,
        pow2(r.initial_reed_solomon.spec_log_block_length()) == 1048576,
        r.reed_solomon_codes@.len() == 2,
        pow2(r.reed_solomon_codes@[0].spec_log_message_length()) == 16384,
        pow2(r.reed_solomon_codes@[0].spec_log_block_length()) == 65536,
        pow2(r.reed_solomon_codes@[1].spec_log_message_length()) == 1024,
        pow2(r.reed_solomon_codes@[1].spec_log_block_length()) == 4096,
        prover_config_ok(r, 24),
{
    let recursive_steps: usize = 2;
    let inv_rate: usize = 4;
    let mut dims: Vec<(usize, usize)> = Vec::with_capacity(recursive_steps);
    let initial_dims: (usize, usize) = (262144, 64);
    dims.push((16384, 16));
    dims.push((1024, 16));
    let mut ks: Vec<usize> = Vec::with_capacity(recursive_steps);
    let initial_k: usize = 6;
    ks.push(4);
    ks.push(4);
    proof {
        lemma2_to64();
        F::lemma_order();
        lemma_pow2_is_pow2(18);
        lemma_pow2_is_pow2(20);
        lemma_pow2_is_pow2(14);
        lemma_pow2_is_pow2(10);
    }
    let initial_reed_solomon: ReedSolomonEncoding<F> = ReedSolomonEncoding::new(
        initial_dims.0,
        initial_dims.0 * inv_rate,
    );
    let reed_solomon_codes = codes_for::<F>(&dims, recursive_steps);
    let r = ProverConfig { recursive_steps, initial_dims, dims, initial_k, ks, initial_reed_solomon, reed_solomon_codes };
    proof {
        assert(ks_sum(r.ks@, 0) == 0);
        assert(ks_sum(r.ks@, 1) == 4);
        assert(vars_before_step(r, 24, 0) == 18);
        assert(vars_before_step(r, 24, 1) == 14);
        assert(pow2(r.reed_solomon_codes@[0].spec_log_message_length()) == 16384);
        assert(pow2(r.reed_solomon_codes@[0].spec_log_block_length()) == 65536);
        assert(pow2(r.reed_solomon_codes@[1].spec_log_message_length()) == 1024);
        assert(pow2(r.reed_solomon_codes@[1].spec_log_block_length()) == 4096);
        assert(commit_ok(r.initial_dims.0, r.initial_dims.1, r.initial_reed_solomon, 24));
        assert(r.initial_dims.1 == pow2(6));
        assert(pow2(18) < F::spec_order());
        assert(commit_ok(r.dims@[0].0, r.dims@[0].1, r.reed_solomon_codes@[0], 18));
        assert(commit_ok(r.dims@[1].0, r.dims@[1].1, r.reed_solomon_codes@[1], 14));
    }
    r
}

/// The verifier's parameters for `2^24` coefficients.
pub fn hardcoded_config_24_verifier() -> (r: VerifierConfig)
    ensures
        verifier_config_ok::<BinaryElem32>(r),
        r.recursive_steps == 2,
        r.initial_dim == 18,
        r.log_dims@ == seq![14usize, 10usize],
        r.initial_k == 6,
        r.ks@ == seq![4usize, 4usize],
{
    let recursive_steps: usize = 2;
    let mut log_rs_dims: Vec<usize> = Vec::with_capacity(recursive_steps);
    let initial_dim: usize = 18;
    log_rs_dims.push(14);
    log_rs_dims.push(10);
    let mut ks: Vec<usize> = Vec::with_capacity(recursive_steps);
    let initial_k: usize = 6;
    ks.push(4);
    ks.push(4);
    let r = VerifierConfig { recursive_steps, initial_dim, log_dims: log_rs_dims, initial_k, ks };
    proof {
        BinaryElem32::lemma_order();
        assert(r.log_dims@ =~= seq![14usize, 10usize]);
        assert(r.ks@ =~= seq![4usize, 4usize]);
        lemma_config_24_verifier_ok::<BinaryElem32>(r);
    }
    r
}

/// The verifier's parameters for `2^20` coefficients are usable with every
/// field of this crate.
pub proof fn lemma_config_20_verifier_ok<F: BinaryField>(c: VerifierConfig)
    requires
        c.recursive_steps == 1,
        c.initial_dim == 14,
        c.log_dims@ == seq![10usize],
        c.initial_k == 6,
        c.ks@ == seq![4usize],
    ensures
        verifier_config_ok::<F>(c),
{
    lemma2_to64();
    F::lemma_order();
}

/// The verifier's parameters for `2^24` coefficients are usable with every
/// field of at least `2^20` elements.
pub proof fn lemma_config_24_verifier_ok<F: BinaryField>(c: VerifierConfig)
    requires
        F::spec_order() >= 0x100000,
        c.recursive_steps == 2,
        c.initial_dim == 18,
        c.log_dims@ == seq![14usize, 10usize],
        c.initial_k == 6,
        c.ks@ == seq![4usize, 4usize],
    ensures
        verifier_config_ok::<F>(c),
{
    lemma2_to64();
    F::lemma_order();
}

} // verus!
