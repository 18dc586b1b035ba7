//! The sum-check protocol over multilinear polynomials, made non-interactive
//! with a Fiat-Shamir transcript, together with the multilinear and
//! univariate polynomial engines it rests on.
pub mod bn254;
pub mod error;
pub mod field;
pub mod guarantees;
pub mod multilinear;
pub mod polynomial_algebra;
pub mod sumcheck;
pub mod transcript;
pub mod univariate;
