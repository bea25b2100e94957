use cryptoutils::binary_field::{random, BinaryElem16, BinaryField};
use cryptoutils::ligerito::{SumcheckProverInstance, SumcheckVerifierInstance};
use cryptoutils::multilinear_poly::MultiLinearPoly;
use cryptoutils::sumcheck::QuadraticEvals;
use sha2::{Digest, Sha256};
use std::collections::hash_map::DefaultHasher;
use std::hash::{Hash, Hasher};

// Simple Fiat-Shamir transcript simulator
struct FSTranscript {
    hasher: Sha256,
    counter: u32,
}

impl FSTranscript {
    fn new(seed: u32) -> Self {
        let mut hasher = Sha256::new();
        hasher.update(&seed.to_le_bytes());
        Self { hasher, counter: 0 }
    }

    fn absorb(&mut self, evals: &QuadraticEvals<BinaryElem16>) {
        let mut hasher = DefaultHasher::new();
        evals.hash(&mut hasher);
        let hash = hasher.finish();
        self.hasher.update(&hash.to_le_bytes());
    }

    fn squeeze(&mut self) -> BinaryElem16 {
        self.hasher.update(&self.counter.to_le_bytes());
        self.counter += 1;
        let result = self.hasher.finalize_reset();
        let value = u16::from_le_bytes([result[0], result[1]]);
        self.hasher = Sha256::new();
        BinaryElem16::new(value)
    }
}

fn random_poly(k: usize) -> MultiLinearPoly<BinaryElem16> {
    let evals: Vec<BinaryElem16> = (0..(1 << k)).map(|_| random::<BinaryElem16>()).collect();
    MultiLinearPoly::new(evals)
}

fn inner_product(
    f: &MultiLinearPoly<BinaryElem16>,
    b: &MultiLinearPoly<BinaryElem16>,
) -> BinaryElem16 {
    f.evals()
        .iter()
        .zip(b.evals().iter())
        .map(|(&fi, &bi)| fi.mul(bi))
        .fold(BinaryElem16::zero(), |acc, x| acc.add(x))
}

#[test]
fn test_ligerito_emulator() {
    let k = 12;
    let glues = vec![2, 5, 9];
    let bs: Vec<MultiLinearPoly<BinaryElem16>> =
        glues.iter().map(|&gi| random_poly(k - gi)).collect();

    let f = random_poly(k);
    let b1 = random_poly(k);
    let h = inner_product(&f, &b1);

    let mut prover_challenges = Vec::new();
    let mut verifier_challenges = Vec::new();
    let mut hs = Vec::new();

    let mut fs_prover = FSTranscript::new(1234);
    let (mut prover, s1) = SumcheckProverInstance::new(f.clone(), b1.clone(), h).unwrap();
    fs_prover.absorb(&s1);

    let mut folds = 0;
    let mut gl_idx = 0;

    for _i in 0..(k - 1) {
        let ri = fs_prover.squeeze();
        prover_challenges.push(ri);
        let si = prover.fold(ri);
        fs_prover.absorb(&si);
        folds += 1;

        if gl_idx < glues.len() && folds == glues[gl_idx] {
            let bi = bs[gl_idx].clone();
            let hi = inner_product(&prover.f, &bi);
            hs.push(hi);

            let gl_i = prover.introduce_new(bi, hi).unwrap();
            fs_prover.absorb(&gl_i);

            let alpha = fs_prover.squeeze();
            prover.glue(alpha);

            gl_idx += 1;
        }
    }

    let mut fs_verifier = FSTranscript::new(1234);
    let mut folds = 0;
    let mut gl_idx = 0;
    let (mut verifier, g1) =
        SumcheckVerifierInstance::new(b1, h, prover.transcript.clone()).unwrap();
    fs_verifier.absorb(&g1);

    for _i in 0..(k - 1) {
        let ri = fs_verifier.squeeze();
        verifier_challenges.push(ri);
        let gi = verifier.fold(ri).unwrap();
        fs_verifier.absorb(&gi);
        folds += 1;

        if gl_idx < glues.len() && folds == glues[gl_idx] {
            let bi = bs[gl_idx].clone();
            let hi = hs[gl_idx];

            let gl_i = verifier.introduce_new(bi, hi).unwrap();
            fs_verifier.absorb(&gl_i);

            let alpha = fs_verifier.squeeze();
            verifier.glue(alpha);

            gl_idx += 1;
        }
    }

    let final_ri = fs_verifier.squeeze();
    verifier_challenges.push(final_ri);
    let f_eval = f.partial_eval(&verifier_challenges).evals()[0];

    let ok = verifier.verify(final_ri, f_eval);
    assert!(ok, "Ligerito protocol verification should pass");

    assert_eq!(
        prover_challenges,
        verifier_challenges[..prover_challenges.len()]
    );
}

#[test]
fn test_ligerito_emulator_no_glues() {
    let k = 5;
    let f = random_poly(k);
    let b1 = random_poly(k);
    let h = inner_product(&f, &b1);

    let mut prover_challenges = Vec::new();
    let mut verifier_challenges = Vec::new();

    let mut fs_prover = FSTranscript::new(1234);
    let (mut prover, s1) = SumcheckProverInstance::new(f.clone(), b1.clone(), h).unwrap();
    fs_prover.absorb(&s1);

    for _i in 0..(k - 1) {
        let ri = fs_prover.squeeze();
        prover_challenges.push(ri);
        let si = prover.fold(ri);
        fs_prover.absorb(&si);
    }

    let mut fs_verifier = FSTranscript::new(1234);
    let (mut verifier, g1) =
        SumcheckVerifierInstance::new(b1, h, prover.transcript.clone()).unwrap();
    fs_verifier.absorb(&g1);

    for _i in 0..(k - 1) {
        let ri = fs_verifier.squeeze();
        verifier_challenges.push(ri);
        let gi = verifier.fold(ri).unwrap();
        fs_verifier.absorb(&gi);
    }

    let final_ri = fs_verifier.squeeze();
    verifier_challenges.push(final_ri);
    let f_eval = f.partial_eval(&verifier_challenges).evals()[0];

    let ok = verifier.verify(final_ri, f_eval);
    assert!(ok, "Ligerito protocol without glues should pass");

    assert_eq!(
        prover_challenges,
        verifier_challenges[..prover_challenges.len()]
    );
}

#[test]
fn test_ligerito_simple() {
    let k = 5;
    let f = random_poly(k);
    let b1 = random_poly(k);
    let h = inner_product(&f, &b1);

    let (mut prover, _s1) = SumcheckProverInstance::new(f.clone(), b1.clone(), h).unwrap();

    let mut challenges = Vec::new();
    for i in 0..(k - 1) {
        let ri = BinaryElem16::new((i + 1) as u16);
        challenges.push(ri);
        prover.fold(ri);
    }

    let (mut verifier, _g1) =
        SumcheckVerifierInstance::new(b1, h, prover.transcript.clone()).unwrap();

    for &ri in &challenges {
        verifier.fold(ri).unwrap();
    }

    let final_r = BinaryElem16::new(42);
    let eval_points: Vec<BinaryElem16> = challenges
        .iter()
        .chain(std::iter::once(&final_r))
        .cloned()
        .collect();
    let f_eval = f.partial_eval(&eval_points).evals()[0];

    let ok = verifier.verify(final_r, f_eval);
    assert!(ok, "Simple ligerito protocol verification should pass");
}

#[test]
fn test_basic_sumcheck_debug() {
    let k = 3;
    let f = random_poly(k);
    let b1 = random_poly(k);
    let h = inner_product(&f, &b1);

    let (mut prover, s1) = SumcheckProverInstance::new(f.clone(), b1.clone(), h).unwrap();
    println!("Initial s1: {:?}", s1);

    let r1 = BinaryElem16::new(1);
    let s2 = prover.fold(r1);
    println!("After first fold s2: {:?}", s2);
    println!("Prover transcript: {:?}", prover.transcript);

    let (mut verifier, g1) =
        SumcheckVerifierInstance::new(b1, h, prover.transcript.clone()).unwrap();
    println!("Initial g1: {:?}", g1);
    println!("Verifier initial sum: {:?}", verifier.sum);
    println!("Verifier initial tr_reader: {:?}", verifier.tr_reader);
    println!(
        "Verifier initial transcript length: {:?}",
        verifier.transcript.len()
    );

    let g2 = verifier.fold(r1).unwrap();
    println!("After first fold g2: {:?}", g2);

    let r2 = BinaryElem16::new(2);
    let s3 = prover.fold(r2);
    println!("After second fold s3: {:?}", s3);

    println!("About to do second verifier fold...");
    println!("Verifier sum before fold: {:?}", verifier.sum);
    println!("Verifier tr_reader: {:?}", verifier.tr_reader);
    println!("Transcript length: {:?}", verifier.transcript.len());

    if verifier.tr_reader >= verifier.transcript.len() {
        println!(
            "ERROR: tr_reader {} >= transcript.len() {}",
            verifier.tr_reader,
            verifier.transcript.len()
        );
        return;
    }

    let g3 = verifier.fold(r2).unwrap();
    println!("After second fold g3: {:?}", g3);
}

#[test]
fn test_ligerito_deterministic() {
    let k = 3;
    let f = random_poly(k);
    let b1 = random_poly(k);
    let h = inner_product(&f, &b1);

    let challenges: Vec<BinaryElem16> = (1..(k as u16)).map(BinaryElem16::new).collect();

    let (mut prover, _s1) = SumcheckProverInstance::new(f.clone(), b1.clone(), h).unwrap();

    for &ri in &challenges {
        prover.fold(ri);
    }

    let (mut verifier, _g1) =
        SumcheckVerifierInstance::new(b1, h, prover.transcript.clone()).unwrap();

    for &ri in &challenges {
        verifier.fold(ri).unwrap();
    }

    let final_r = BinaryElem16::new(42);
    let mut all_challenges = challenges.clone();
    all_challenges.push(final_r);
    let f_eval = f.partial_eval(&all_challenges).evals()[0];

    let ok = verifier.verify(final_r, f_eval);
    assert!(
        ok,
        "Ligerito protocol with deterministic challenges should pass"
    );
}

#[test]
fn test_ligerito_minimal() {
    let k = 2;
    let f = random_poly(k);
    let b1 = random_poly(k);
    let h = inner_product(&f, &b1);

    println!("=== MINIMAL TEST k=2 ===");
    println!("f.evals = {:?}", f.evals());
    println!("b1.evals = {:?}", b1.evals());
    println!("h = {:?}", h);

    let (mut prover, s1) = SumcheckProverInstance::new(f.clone(), b1.clone(), h).unwrap();
    println!("Initial s1: {:?}", s1);

    let r1 = BinaryElem16::new(1);
    let s2 = prover.fold(r1);
    println!("After fold s2: {:?}", s2);

    let (mut verifier, g1) =
        SumcheckVerifierInstance::new(b1, h, prover.transcript.clone()).unwrap();
    println!("Initial g1: {:?}", g1);

    let g2 = verifier.fold(r1).unwrap();
    println!("After fold g2: {:?}", g2);

    let final_r = BinaryElem16::new(42);
    let f_eval = f.partial_eval(&vec![r1, final_r]).evals()[0];
    println!("f_eval = {:?}", f_eval);

    let ok = verifier.verify(final_r, f_eval);
    assert!(ok, "Minimal test should pass");
}

fn inner_with_rs(
    f: &MultiLinearPoly<BinaryElem16>,
    b: &MultiLinearPoly<BinaryElem16>,
    rs: &[BinaryElem16],
) -> BinaryElem16 {
    let n1 = f.num_vars();
    let n2 = b.num_vars();

    let eval_len = if n1 >= n2 { n1 - n2 } else { 0 };
    let eval_len = eval_len.min(rs.len());
    let eval_pts = &rs[0..eval_len];

    let fp = if eval_pts.is_empty() {
        f.clone()
    } else {
        f.partial_eval(&eval_pts)
    };
    assert_eq!(fp.num_vars(), b.num_vars());

    fp.evals()
        .iter()
        .zip(b.evals().iter())
        .map(|(&fi, &bi)| fi.mul(bi))
        .fold(BinaryElem16::zero(), |acc, x| acc.add(x))
}

#[test]
fn test_ligerito_partial_emulator() {
    let k = 12;
    let rs: Vec<BinaryElem16> = (0..(k - 4)).map(|_| random::<BinaryElem16>()).collect();
    let glues = vec![2, 5];
    let bs: Vec<MultiLinearPoly<BinaryElem16>> =
        glues.iter().map(|&gi| random_poly(k - gi)).collect();

    let separation_challenges: Vec<BinaryElem16> =
        (0..glues.len()).map(|_| random::<BinaryElem16>()).collect();

    let f = random_poly(k);
    let b1 = random_poly(k);
    let h = inner_with_rs(&f, &b1, &rs);

    let mut hs = Vec::new();

    let (mut prover, _s1) = SumcheckProverInstance::new(f.clone(), b1.clone(), h).unwrap();
    let mut folds = 0;
    let mut gl_idx = 0;

    for i in 0..(rs.len() - 1) {
        prover.fold(rs[i]);
        folds += 1;

        if gl_idx < glues.len() && folds == glues[gl_idx] {
            let bi = bs[gl_idx].clone();
            let alpha = separation_challenges[gl_idx];

            let hi = inner_product(&prover.f, &bi);
            hs.push(hi);

            prover.introduce_new(bi, hi).unwrap();
            prover.glue(alpha);

            gl_idx += 1;
        }
    }

    let mut folds = 0;
    let mut gl_idx = 0;
    let (mut verifier, _g1) =
        SumcheckVerifierInstance::new(b1, h, prover.transcript.clone()).unwrap();

    for i in 0..(rs.len() - 1) {
        verifier.fold(rs[i]).unwrap();
        folds += 1;

        if gl_idx < glues.len() && folds == glues[gl_idx] {
            let bi = bs[gl_idx].clone();
            let hi = hs[gl_idx];
            let alpha = separation_challenges[gl_idx];

            verifier.introduce_new(bi, hi).unwrap();
            verifier.glue(alpha);

            gl_idx += 1;
        }
    }

    let f_partial_eval = f.partial_eval(&rs).evals().clone();

    let ok = verifier.verify_partial(rs[rs.len() - 1], f_partial_eval);
    assert!(ok, "Ligerito partial emulator verification should pass");
}

#[test]
fn test_specific_failing_case() {
    let f_evals = vec![
        BinaryElem16::new(1),
        BinaryElem16::new(2),
        BinaryElem16::new(3),
        BinaryElem16::new(4),
        BinaryElem16::new(5),
        BinaryElem16::new(6),
        BinaryElem16::new(7),
        BinaryElem16::new(8),
    ];
    let f = MultiLinearPoly::new(f_evals);

    let b1_evals = vec![
        BinaryElem16::new(10),
        BinaryElem16::new(20),
        BinaryElem16::new(30),
        BinaryElem16::new(40),
        BinaryElem16::new(50),
        BinaryElem16::new(60),
        BinaryElem16::new(70),
        BinaryElem16::new(80),
    ];
    let b1 = MultiLinearPoly::new(b1_evals);
    let h = inner_product(&f, &b1);

    println!("=== SPECIFIC FAILING CASE ===");
    println!("f.evals = {:?}", f.evals());
    println!("b1.evals = {:?}", b1.evals());
    println!("h = {:?}", h);

    let (mut prover, s1) = SumcheckProverInstance::new(f.clone(), b1.clone(), h).unwrap();
    println!("Initial s1: {:?}", s1);

    let r1 = BinaryElem16::new(1);
    let s2 = prover.fold(r1);
    println!("After fold 1 s2: {:?}", s2);

    let r2 = BinaryElem16::new(2);
    let s3 = prover.fold(r2);
    println!("After fold 2 s3: {:?}", s3);

    let (mut verifier, g1) =
        SumcheckVerifierInstance::new(b1, h, prover.transcript.clone()).unwrap();
    println!("Initial g1: {:?}", g1);

    let g2 = verifier.fold(r1).unwrap();
    println!("After fold 1 g2: {:?}", g2);

    let g3 = verifier.fold(r2).unwrap();
    println!("After fold 2 g3: {:?}", g3);
}

#[test]
fn test_instances_reject_wrong_sums() {
    let f = MultiLinearPoly::new((1..=8u16).map(BinaryElem16::new).collect());
    let b1 = MultiLinearPoly::new((11..=18u16).map(BinaryElem16::new).collect());
    let h = inner_product(&f, &b1);
    let wrong = h.add(BinaryElem16::one());
    assert!(SumcheckProverInstance::new(f.clone(), b1.clone(), wrong).is_none());
    let (prover, _) = SumcheckProverInstance::new(f.clone(), b1.clone(), h).unwrap();
    assert_eq!(prover.transcript.len(), 1);
    // the verifier refuses a transcript that does not match the claim
    assert!(SumcheckVerifierInstance::new(b1.clone(), wrong, prover.transcript.clone()).is_none());
    // and an empty one
    assert!(SumcheckVerifierInstance::new(b1.clone(), h, vec![]).is_none());
    // a used-up transcript makes `fold` fail
    let (mut verifier, _) = SumcheckVerifierInstance::new(b1, h, prover.transcript.clone()).unwrap();
    assert!(verifier.read_tr().is_none());
    assert!(verifier.fold(BinaryElem16::new(5)).is_none());
}
