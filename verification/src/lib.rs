//! Ligerito polynomial commitment building blocks over binary fields:
//! binary-field arithmetic, the additive (novel-basis) FFT, Reed-Solomon
//! encoding, Merkle trees, sumcheck helpers and the Ligerito prover and
//! verifier.

pub mod binary_field;
pub mod field_algebra;
pub mod binary_fft;
pub mod reed_solomon;
pub mod sumcheck;
pub mod utils;
pub mod merkle_tree;
pub mod emulated_fs;
pub mod sumcheck_polys;
pub mod data_structures;
pub mod ligero;
pub mod ligerito;
pub mod config;
pub mod prover;
pub mod ligerito_verifier;
pub mod multilinear_poly;
