//! A zkSTARK proving system built from its parts: prime-field arithmetic,
//! univariate and multivariate polynomials, Merkle commitments, a
//! Fiat-Shamir transcript, FRI, the STARK prover and verifier, and the
//! Rescue-Prime hash.

pub mod bytes;
pub mod crypto;
pub mod field;
pub mod fri;
pub mod math;
pub mod polynomial;
pub mod rescue_prime;
pub mod stark;
