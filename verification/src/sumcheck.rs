//! The sumcheck engine specialized to the product of a multilinear
//! polynomial with a weighted sum of equality polynomials.

pub mod polynomial;
pub mod prover_single;
