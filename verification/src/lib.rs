//! Sumcheck over the KoalaBear field and its degree-8 extension: folding of
//! multilinear polynomials, barycentric Lagrange interpolation, and the
//! decisions of the sumcheck prover and verifier, with their contracts proved.
pub mod field;
pub mod extension;
pub mod ring;
pub mod evals;
pub mod multilinear;
pub mod univariate;
pub mod verify;
pub mod prove;
pub mod fibonacci;
