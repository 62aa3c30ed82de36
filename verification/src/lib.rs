//! Batch threshold encryption over BLS12-381 using partial-fraction
//! techniques, with Schnorr-style simulation-extractable NIZK proofs.

pub mod field;
pub mod group;
pub mod bits;
pub mod fft;
pub mod partial_fractions;
pub mod hashing;
pub mod nizk;
pub mod nizk_dlog;
pub mod batch_enc;
pub mod batch_enc_short;
pub mod payload;
pub mod message;
pub mod convolution;
pub mod batch_enc_short_correctness;
pub mod batch_enc_correctness;
