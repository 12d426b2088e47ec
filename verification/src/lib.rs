//! Core of the WHIR polynomial commitment scheme: multilinear polynomials in
//! coefficient and evaluation form, equality/Lagrange tables, the specialized
//! sumcheck prover, and the protocol parameters, over a 64-bit prime field.

pub mod field;
pub mod poly_utils;
pub mod parameters;
pub mod sumcheck;
pub mod whir;
