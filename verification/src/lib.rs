//! Succinct interactive proof protocols over a prime field, compiled
//! non-interactive through a Fiat–Shamir transcript: a multilinear
//! polynomial engine over the Boolean hypercube, the sum-check protocol, the
//! layered GKR protocol over fan-in-2 arithmetic circuits, and a multilinear
//! KZG commitment closing the input-layer claim.
//!
//! Field and curve arithmetic is carried out by the `ark` crates and
//! Keccak-256 by `sha3`, each behind a small trusted boundary; everything
//! built on top of them — polynomial operations, circuit evaluation,
//! selector construction, transcripts, provers and verifiers — is verified
//! against the specifications stated in each module.

pub mod bits;
pub mod circuit;
pub mod errors;
pub mod field;
pub mod gate;
pub mod gkr;
pub mod kzg;
pub mod merkle;
pub mod multilinear;
pub mod product_polynomial;
pub mod sum_polynomial;
pub mod sumcheck;
pub mod transcript;
pub mod univariate;
