//! Configurations, witnesses and proofs of the Ligerito protocol, and their
//! sizes in bytes.
use crate::binary_field::BinaryField;
use crate::reed_solomon::ReedSolomonEncoding;
use vstd::layout::size_of;
use vstd::prelude::*;

verus! {

/// The size in bytes of a proof part.
pub trait ProofSize {
    /// The size, as a number.
    spec fn spec_proof_size(&self) -> nat;

    fn proof_size(&self) -> (r: usize)
        requires
            self.spec_proof_size() <= usize::MAX,
        ensures
            r == self.spec_proof_size(),
    ;
}

/// The prover's parameters: the matrix shapes `(rows, columns)` of the
/// initial and recursive commitments, the number of sumcheck rounds before
/// each commitment, and the Reed-Solomon codes of the columns.
pub struct ProverConfig<F: BinaryField> {
    pub recursive_steps: usize,
    pub initial_dims: (usize, usize),
    pub dims: Vec<(usize, usize)>,
    pub initial_k: usize,
    pub ks: Vec<usize>,
    pub initial_reed_solomon: ReedSolomonEncoding<F>,
    pub reed_solomon_codes: Vec<ReedSolomonEncoding<F>>,
}

/// The verifier's parameters: the base-2 logarithms of the message lengths
/// of the initial and recursive codes, and the sumcheck rounds per step.
pub struct VerifierConfig {
    pub recursive_steps: usize,
    pub initial_dim: usize,
    pub log_dims: Vec<usize>,
    pub initial_k: usize,
    pub ks: Vec<usize>,
}

/// A committed matrix: its encoded columns stored one after another, the
/// Merkle tree over its rows, and its shape.
pub struct RecursiveLigeroWitness<F: BinaryField> {
    pub flat_mat: Vec<F>,
    pub tree: Vec<Vec<u8>>,
    pub num_rows: usize,
    pub num_cols: usize,
}

/// A commitment: the Merkle root.
pub struct RecursiveLigeroCommitment {
    pub root: Vec<u8>,
}

/// The rows opened at the queries and their Merkle opening.
pub struct RecursiveLigeroProof<F: BinaryField> {
    pub opened_rows: Vec<Vec<F>>,
    pub merkle_proof: Vec<Vec<u8>>,
}

/// The last opening, with the final folded polynomial `yr` in the clear.
pub struct FinalLigeroProof<F: BinaryField> {
    pub yr: Vec<F>,
    pub opened_rows: Vec<Vec<F>>,
    pub merkle_proof: Vec<Vec<u8>>,
}

/// The sumcheck round values.
pub struct SumcheckTranscript<F: BinaryField> {
    pub tr: Vec<(F, F, F)>,
}

/// A proof under construction.
pub struct LigeritoProof<F: BinaryField> {
    pub initial_ligero_cm: RecursiveLigeroCommitment,
    pub initial_ligero_proof: Option<RecursiveLigeroProof<F>>,
    pub recursive_commitments: Vec<RecursiveLigeroCommitment>,
    pub recursive_proofs: Vec<RecursiveLigeroProof<F>>,
    pub final_ligero_proof: Option<FinalLigeroProof<F>>,
    pub sumcheck_transcript: Option<SumcheckTranscript<F>>,
}

/// A complete proof.
pub struct FinalizedLigeritoProof<F: BinaryField> {
    pub initial_ligero_cm: RecursiveLigeroCommitment,
    pub initial_ligero_proof: RecursiveLigeroProof<F>,
    pub recursive_commitments: Vec<RecursiveLigeroCommitment>,
    pub recursive_proofs: Vec<RecursiveLigeroProof<F>>,
    pub final_ligero_proof: FinalLigeroProof<F>,
    pub sumcheck_transcript: SumcheckTranscript<F>,
}

/// The bytes of the first `k` rows: the sum of `len * size_of::<F>()`.
pub open spec fn rows_size<F>(rows: Seq<Vec<F>>, k: nat) -> nat
    decreases k,
{
    if k == 0 || k > rows.len() {
        0
    } else {
        rows_size(rows, (k - 1) as nat) + rows[k - 1]@.len() * size_of::<F>()
    }
}

/// The bytes of the first `k` hashes: the sum of their lengths.
pub open spec fn hashes_size(hashes: Seq<Vec<u8>>, k: nat) -> nat
    decreases k,
{
    if k == 0 || k > hashes.len() {
        0
    } else {
        hashes_size(hashes, (k - 1) as nat) + hashes[k - 1]@.len()
    }
}

fn rows_size_exec<F: BinaryField>(rows: &Vec<Vec<F>>) -> (r: usize)
    requires
        rows_size(rows@, rows@.len() as nat) <= usize::MAX,
    ensures
        r == rows_size(rows@, rows@.len() as nat),
{
    let mut total: usize = 0;
    let mut i: usize = 0;
    while i < rows.len()
        invariant
            i <= rows@.len(),
            total == rows_size(rows@, i as nat),
            rows_size(rows@, rows@.len() as nat) <= usize::MAX,
        decreases rows@.len() - i,
    {
        proof {
            lemma_rows_size_mono(rows@, (i + 1) as nat, rows@.len() as nat);
        }
        let row_bytes = rows[i].len() * core::mem::size_of::<F>();
        total = total + row_bytes;
        i = i + 1;
    }
    total
}

fn hashes_size_exec(hashes: &Vec<Vec<u8>>) -> (r: usize)
    requires
        hashes_size(hashes@, hashes@.len() as nat) <= usize::MAX,
    ensures
        r == hashes_size(hashes@, hashes@.len() as nat),
{
    let mut total: usize = 0;
    let mut i: usize = 0;
    while i < hashes.len()
        invariant
            i <= hashes@.len(),
            total == hashes_size(hashes@, i as nat),
            hashes_size(hashes@, hashes@.len() as nat) <= usize::MAX,
        decreases hashes@.len() - i,
    {
        proof {
            lemma_hashes_size_mono(hashes@, (i + 1) as nat, hashes@.len() as nat);
        }
        total = total + hashes[i].len();
        i = i + 1;
    }
    total
}

proof fn lemma_rows_size_mono<F>(rows: Seq<Vec<F>>, a: nat, b: nat)
    requires
        a <= b <= rows.len(),
    ensures
        rows_size(rows, a) <= rows_size(rows, b),
    decreases b - a,
{
    if a < b {
        lemma_rows_size_mono(rows, a, (b - 1) as nat);
    }
}

proof fn lemma_hashes_size_mono(hashes: Seq<Vec<u8>>, a: nat, b: nat)
    requires
        a <= b <= hashes.len(),
    ensures
        hashes_size(hashes, a) <= hashes_size(hashes, b),
    decreases b - a,
{
    if a < b {
        lemma_hashes_size_mono(hashes, a, (b - 1) as nat);
    }
}

impl<F: BinaryField> ProofSize for RecursiveLigeroProof<F> {
    open spec fn spec_proof_size(&self) -> nat {
        rows_size(self.opened_rows@, self.opened_rows@.len() as nat) + hashes_size(
            self.merkle_proof@,
            self.merkle_proof@.len() as nat,
        )
    }

    fn proof_size(&self) -> (r: usize) {
        let opened_rows_size = rows_size_exec(&self.opened_rows);
        let merkle_proof_size = hashes_size_exec(&self.merkle_proof);
        opened_rows_size + merkle_proof_size
    }
}

impl<F: BinaryField> ProofSize for FinalLigeroProof<F> {
    open spec fn spec_proof_size(&self) -> nat {
        self.yr@.len() * size_of::<F>() + rows_size(self.opened_rows@, self.opened_rows@.len() as nat)
            + hashes_size(self.merkle_proof@, self.merkle_proof@.len() as nat)
    }

    fn proof_size(&self) -> (r: usize) {
        let yr_size = self.yr.len() * core::mem::size_of::<F>();
        let opened_rows_size = rows_size_exec(&self.opened_rows);
        let merkle_proof_size = hashes_size_exec(&self.merkle_proof);
        yr_size + opened_rows_size + merkle_proof_size
    }
}

impl<F: BinaryField> ProofSize for SumcheckTranscript<F> {
    open spec fn spec_proof_size(&self) -> nat {
        self.tr@.len() * size_of::<(F, F, F)>()
    }

    fn proof_size(&self) -> (r: usize) {
        self.tr.len() * core::mem::size_of::<(F, F, F)>()
    }
}

impl ProofSize for RecursiveLigeroCommitment {
    open spec fn spec_proof_size(&self) -> nat {
        self.root@.len()
    }

    fn proof_size(&self) -> (r: usize) {
        self.root.len()
    }
}

/// The sizes of the first `k` commitments.
pub open spec fn commitments_size(cms: Seq<RecursiveLigeroCommitment>, k: nat) -> nat
    decreases k,
{
    if k == 0 || k > cms.len() {
        0
    } else {
        commitments_size(cms, (k - 1) as nat) + cms[k - 1].spec_proof_size()
    }
}

/// The sizes of the first `k` openings.
pub open spec fn proofs_size<F: BinaryField>(proofs: Seq<RecursiveLigeroProof<F>>, k: nat) -> nat
    decreases k,
{
    if k == 0 || k > proofs.len() {
        0
    } else {
        proofs_size(proofs, (k - 1) as nat) + proofs[k - 1].spec_proof_size()
    }
}

proof fn lemma_commitments_size_mono(cms: Seq<RecursiveLigeroCommitment>, a: nat, b: nat)
    requires
        a <= b <= cms.len(),
    ensures
        commitments_size(cms, a) <= commitments_size(cms, b),
    decreases b - a,
{
    if a < b {
        lemma_commitments_size_mono(cms, a, (b - 1) as nat);
    }
}

proof fn lemma_proofs_size_mono<F: BinaryField>(proofs: Seq<RecursiveLigeroProof<F>>, a: nat, b: nat)
    requires
        a <= b <= proofs.len(),
    ensures
        proofs_size(proofs, a) <= proofs_size(proofs, b),
    decreases b - a,
{
    if a < b {
        lemma_proofs_size_mono(proofs, a, (b - 1) as nat);
    }
}

impl<F: BinaryField> ProofSize for FinalizedLigeritoProof<F> {
    open spec fn spec_proof_size(&self) -> nat {
        self.initial_ligero_cm.spec_proof_size() + self.initial_ligero_proof.spec_proof_size()
            + commitments_size(self.recursive_commitments@, self.recursive_commitments@.len() as nat)
            + proofs_size(self.recursive_proofs@, self.recursive_proofs@.len() as nat)
            + self.final_ligero_proof.spec_proof_size() + self.sumcheck_transcript.spec_proof_size()
    }

    fn proof_size(&self) -> (r: usize) {
        let initial_cm_size = self.initial_ligero_cm.proof_size();
        let initial_proof_size = self.initial_ligero_proof.proof_size();
        let mut recursive_cms_size: usize = 0;
        let mut i: usize = 0;
        let ghost cms = self.recursive_commitments@;
        while i < self.recursive_commitments.len()
            invariant
                cms == self.recursive_commitments@,
                i <= cms.len(),
                recursive_cms_size == commitments_size(cms, i as nat),
                commitments_size(cms, cms.len() as nat) <= usize::MAX,
            decreases cms.len() - i,
        {
            proof {
                lemma_commitments_size_mono(cms, (i + 1) as nat, cms.len() as nat);
            }
            recursive_cms_size = recursive_cms_size + self.recursive_commitments[i].proof_size();
            i = i + 1;
        }
        let mut recursive_proofs_size: usize = 0;
        let ghost ps = self.recursive_proofs@;
        i = 0;
        while i < self.recursive_proofs.len()
            invariant
                ps == self.recursive_proofs@,
                i <= ps.len(),
                recursive_proofs_size == proofs_size(ps, i as nat),
                proofs_size(ps, ps.len() as nat) <= usize::MAX,
            decreases ps.len() - i,
        {
            proof {
                lemma_proofs_size_mono(ps, (i + 1) as nat, ps.len() as nat);
            }
            recursive_proofs_size = recursive_proofs_size + self.recursive_proofs[i].proof_size();
            i = i + 1;
        }
        let final_proof_size = self.final_ligero_proof.proof_size();
        let sumcheck_size = self.sumcheck_transcript.proof_size();
        initial_cm_size + initial_proof_size + recursive_cms_size + recursive_proofs_size
            + final_proof_size + sumcheck_size
    }
}


proof fn lemma_rows_size_prefix<F>(rows: Seq<Vec<F>>, row: Vec<F>, k: nat)
    requires
        k <= rows.len(),
    ensures
        rows_size(rows.push(row), k) == rows_size(rows, k),
    decreases k,
{
    if k > 0 {
        lemma_rows_size_prefix(rows, row, (k - 1) as nat);
    }
}

proof fn lemma_rows_size_push<F>(rows: Seq<Vec<F>>, row: Vec<F>, k: nat)
    requires
        k <= rows.len(),
    ensures
        rows_size(rows.push(row), k) == rows_size(rows, k),
        rows_size(rows.push(row), rows.len() + 1) == rows_size(rows, rows.len() as nat) + row@.len() * size_of::<F>(),
{
    lemma_rows_size_prefix(rows, row, k);
    lemma_rows_size_prefix(rows, row, rows.len() as nat);
    assert(rows.push(row)[rows.len() as int] == row);
}

proof fn lemma_hashes_size_prefix(hashes: Seq<Vec<u8>>, h: Vec<u8>, k: nat)
    requires
        k <= hashes.len(),
    ensures
        hashes_size(hashes.push(h), k) == hashes_size(hashes, k),
    decreases k,
{
    if k > 0 {
        lemma_hashes_size_prefix(hashes, h, (k - 1) as nat);
    }
}

proof fn lemma_hashes_size_push(hashes: Seq<Vec<u8>>, h: Vec<u8>, k: nat)
    requires
        k <= hashes.len(),
    ensures
        hashes_size(hashes.push(h), k) == hashes_size(hashes, k),
        hashes_size(hashes.push(h), hashes.len() + 1) == hashes_size(hashes, hashes.len() as nat) + h@.len(),
{
    lemma_hashes_size_prefix(hashes, h, k);
    lemma_hashes_size_prefix(hashes, h, hashes.len() as nat);
    assert(hashes.push(h)[hashes.len() as int] == h);
}

proof fn lemma_commitments_size_prefix(cms: Seq<RecursiveLigeroCommitment>, c: RecursiveLigeroCommitment, k: nat)
    requires
        k <= cms.len(),
    ensures
        commitments_size(cms.push(c), k) == commitments_size(cms, k),
    decreases k,
{
    if k > 0 {
        lemma_commitments_size_prefix(cms, c, (k - 1) as nat);
    }
}

proof fn lemma_commitments_size_push(cms: Seq<RecursiveLigeroCommitment>, c: RecursiveLigeroCommitment, k: nat)
    requires
        k <= cms.len(),
    ensures
        commitments_size(cms.push(c), k) == commitments_size(cms, k),
        commitments_size(cms.push(c), cms.len() + 1) == commitments_size(cms, cms.len() as nat) + c.spec_proof_size(),
{
    lemma_commitments_size_prefix(cms, c, k);
    lemma_commitments_size_prefix(cms, c, cms.len() as nat);
    assert(cms.push(c)[cms.len() as int] == c);
}

proof fn lemma_proofs_size_prefix<F: BinaryField>(ps: Seq<RecursiveLigeroProof<F>>, q: RecursiveLigeroProof<F>, k: nat)
    requires
        k <= ps.len(),
    ensures
        proofs_size(ps.push(q), k) == proofs_size(ps, k),
    decreases k,
{
    if k > 0 {
        lemma_proofs_size_prefix(ps, q, (k - 1) as nat);
    }
}

proof fn lemma_proofs_size_push<F: BinaryField>(ps: Seq<RecursiveLigeroProof<F>>, q: RecursiveLigeroProof<F>, k: nat)
    requires
        k <= ps.len(),
    ensures
        proofs_size(ps.push(q), k) == proofs_size(ps, k),
        proofs_size(ps.push(q), ps.len() + 1) == proofs_size(ps, ps.len() as nat) + q.spec_proof_size(),
{
    lemma_proofs_size_prefix(ps, q, k);
    lemma_proofs_size_prefix(ps, q, ps.len() as nat);
    assert(ps.push(q)[ps.len() as int] == q);
}

/// A commitment takes the bytes of its root.
pub proof fn lemma_commitment_size(c: RecursiveLigeroCommitment)
    ensures
        c.spec_proof_size() == c.root@.len(),
{
}

/// An opening with no rows and no hashes takes no bytes; one more opened
/// row adds its length times the size of a field element, and one more
/// hash of the Merkle opening adds its length.
pub proof fn lemma_recursive_proof_size<F: BinaryField>(
    p: RecursiveLigeroProof<F>,
    q: RecursiveLigeroProof<F>,
    row: Vec<F>,
    h: Vec<u8>,
)
    ensures
        p.opened_rows@.len() == 0 && p.merkle_proof@.len() == 0 ==> p.spec_proof_size() == 0,
        q.opened_rows@ == p.opened_rows@.push(row) && q.merkle_proof@ == p.merkle_proof@ ==> q.spec_proof_size()
            == p.spec_proof_size() + row@.len() * size_of::<F>(),
        q.opened_rows@ == p.opened_rows@ && q.merkle_proof@ == p.merkle_proof@.push(h) ==> q.spec_proof_size()
            == p.spec_proof_size() + h@.len(),
{
    lemma_rows_size_push(p.opened_rows@, row, 0);
    lemma_hashes_size_push(p.merkle_proof@, h, 0);
}

/// A final opening with no values, rows or hashes takes no bytes; one
/// more value of `yr` adds the size of a field element, one more opened
/// row its length times that size, and one more hash its length.
pub proof fn lemma_final_proof_size<F: BinaryField>(
    p: FinalLigeroProof<F>,
    q: FinalLigeroProof<F>,
    y: F,
    row: Vec<F>,
    h: Vec<u8>,
)
    ensures
        p.yr@.len() == 0 && p.opened_rows@.len() == 0 && p.merkle_proof@.len() == 0 ==> p.spec_proof_size() == 0,
        q.yr@ == p.yr@.push(y) && q.opened_rows@ == p.opened_rows@ && q.merkle_proof@ == p.merkle_proof@
            ==> q.spec_proof_size() == p.spec_proof_size() + size_of::<F>(),
        q.yr@ == p.yr@ && q.opened_rows@ == p.opened_rows@.push(row) && q.merkle_proof@ == p.merkle_proof@
            ==> q.spec_proof_size() == p.spec_proof_size() + row@.len() * size_of::<F>(),
        q.yr@ == p.yr@ && q.opened_rows@ == p.opened_rows@ && q.merkle_proof@ == p.merkle_proof@.push(h)
            ==> q.spec_proof_size() == p.spec_proof_size() + h@.len(),
{
    lemma_rows_size_push(p.opened_rows@, row, 0);
    lemma_hashes_size_push(p.merkle_proof@, h, 0);
    if q.yr@ == p.yr@.push(y) {
        assert(q.yr@.len() * size_of::<F>() == p.yr@.len() * size_of::<F>() + size_of::<F>()) by (nonlinear_arith)
            requires
                q.yr@.len() == p.yr@.len() + 1,
        ;
    }
}

/// An empty transcript takes no bytes; one more round adds the size of a
/// triple of field elements.
pub proof fn lemma_transcript_size<F: BinaryField>(p: SumcheckTranscript<F>, q: SumcheckTranscript<F>, t: (F, F, F))
    ensures
        p.tr@.len() == 0 ==> p.spec_proof_size() == 0,
        q.tr@ == p.tr@.push(t) ==> q.spec_proof_size() == p.spec_proof_size() + size_of::<(F, F, F)>(),
{
    if q.tr@ == p.tr@.push(t) {
        assert(q.tr@.len() * size_of::<(F, F, F)>() == p.tr@.len() * size_of::<(F, F, F)>() + size_of::<(F, F, F)>())
            by (nonlinear_arith)
            requires
                q.tr@.len() == p.tr@.len() + 1,
        ;
    }
}

/// The size of a finalized proof is the sum of the sizes of its parts.
/// Without recursive commitments and openings it is the sizes of the
/// initial commitment, the initial opening, the final opening and the
/// transcript added up; one more recursive commitment or recursive opening
/// adds its size; and changing one of the other parts changes the total by
/// as much as that part's size changes.
pub proof fn lemma_finalized_proof_size<F: BinaryField>(
    p: FinalizedLigeritoProof<F>,
    q: FinalizedLigeritoProof<F>,
    c: RecursiveLigeroCommitment,
    o: RecursiveLigeroProof<F>,
)
    ensures
        p.recursive_commitments@.len() == 0 && p.recursive_proofs@.len() == 0 ==> p.spec_proof_size()
            == p.initial_ligero_cm.spec_proof_size() + p.initial_ligero_proof.spec_proof_size()
            + p.final_ligero_proof.spec_proof_size() + p.sumcheck_transcript.spec_proof_size(),
        q.initial_ligero_cm == p.initial_ligero_cm && q.initial_ligero_proof == p.initial_ligero_proof
            && q.recursive_commitments@ == p.recursive_commitments@.push(c) && q.recursive_proofs@ == p.recursive_proofs@
            && q.final_ligero_proof == p.final_ligero_proof && q.sumcheck_transcript == p.sumcheck_transcript
            ==> q.spec_proof_size() == p.spec_proof_size() + c.spec_proof_size(),
        q.initial_ligero_cm == p.initial_ligero_cm && q.initial_ligero_proof == p.initial_ligero_proof
            && q.recursive_commitments@ == p.recursive_commitments@ && q.recursive_proofs@ == p.recursive_proofs@.push(o)
            && q.final_ligero_proof == p.final_ligero_proof && q.sumcheck_transcript == p.sumcheck_transcript
            ==> q.spec_proof_size() == p.spec_proof_size() + o.spec_proof_size(),
        q.recursive_commitments@ == p.recursive_commitments@ && q.recursive_proofs@ == p.recursive_proofs@
            ==> q.spec_proof_size() + p.initial_ligero_cm.spec_proof_size() + p.initial_ligero_proof.spec_proof_size()
            + p.final_ligero_proof.spec_proof_size() + p.sumcheck_transcript.spec_proof_size() == p.spec_proof_size()
            + q.initial_ligero_cm.spec_proof_size() + q.initial_ligero_proof.spec_proof_size()
            + q.final_ligero_proof.spec_proof_size() + q.sumcheck_transcript.spec_proof_size(),
{
    lemma_commitments_size_push(p.recursive_commitments@, c, 0);
    lemma_proofs_size_push(p.recursive_proofs@, o, 0);
}

} // verus!
