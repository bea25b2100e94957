# cryptoutils

Ligerito, a polynomial commitment scheme over binary fields, written in Verus
with its contracts and laws proved.

## Layout

- `src/binary_field.rs`: GF(2^16) and GF(2^32), carry-less multiplication
  reduced modulo a fixed polynomial; the `BinaryField` trait with its algebraic
  laws (commutativity, associativity, distributivity, identities).
- `src/field_algebra.rs`: the proofs of associativity and of the inverse of the
  interpolation denominator `3 * 3 + 3`.
- `src/binary_fft.rs`: the additive FFT in the novel polynomial basis; the
  transforms undo each other and are linear.
- `src/reed_solomon.rs`: systematic and non-systematic Reed-Solomon encoding.
- `src/merkle_tree.rs`: SHA-256 Merkle trees with batched openings; an opening
  of sorted distinct queries always verifies.
- `src/emulated_fs.rs`: the Fiat-Shamir transcript.
- `src/multilinear_poly.rs`, `src/utils.rs`: multilinear polynomials, partial
  evaluation and the Lagrange basis.
- `src/sumcheck.rs`, `src/sumcheck_polys.rs`, `src/ligerito.rs`: the plain,
  product and running sumchecks, with their completeness proofs.
- `src/ligero.rs`, `src/prover.rs`, `src/ligerito_verifier.rs`,
  `src/config.rs`, `src/data_structures.rs`: commitments, the prover, the
  verifier and their parameters. The prover's run is stated step by step
  (`trace_step`, `prover_succeeds`): it returns a proof exactly when every
  draw and claimed sum goes through, and that proof holds the run's roots,
  openings, round values and `yr`. The verifier returns exactly
  `spec_ligerito_verify`, the list of its checks over the replayed
  transcript. `lemma_committed_rows_pass` shows that honest openings pass the
  Ligero row check whenever the code evaluates the messages it is given
  (`code_evaluates`: each codeword position is the message's inner product
  with the novel-basis values there). From it, `lemma_prover_succeeds` shows
  that the prover fails only when the transcript's counter runs out, and
  `lemma_honest_proof_accepted` that the verifier accepts what the prover
  returns. That the additive FFT makes the code evaluate its messages rests
  on the field's inverse law, which is checked by the tests, not proved.
- `app/main.rs`: a command-line run of the prover and verifier.

`sha2` computes the hashes and `rand` the random field elements; both are
reached through small trusted wrappers whose contracts are stated in the
source.
