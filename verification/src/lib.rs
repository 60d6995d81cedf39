//! Polynomials over a prime-order group, for threshold secret sharing.
//!
//! A polynomial with scalar coefficients hides a secret in its constant term. Evaluating it
//! at the participants' indices hands out shares, its commitment over a group lets everyone
//! check a share, and Lagrange interpolation at zero recovers the constant term from any
//! threshold-sized set of shares.

pub mod algebra;
pub mod bits;
pub mod field;
pub mod interpolation;
pub mod lagrange;
pub mod polynomial;
pub mod bls;
pub mod types;
