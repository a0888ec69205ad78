//! Core algorithms of a WHIR-style low-degree test: multilinear points over a
//! prime field, equality-polynomial kernels, dense evaluation tables with an
//! amortized Lagrange-weight iterator, Reed-Solomon coset encoding, and the
//! coset-folding round reduction.

pub mod field;
pub mod fold;
pub mod ntt;
pub mod parameters;
pub mod poly_utils;
