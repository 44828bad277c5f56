//! KZG polynomial commitments over the BN254 pairing groups.
//!
//! Polynomials over the scalar field are committed to with a single group
//! element and opened at one or at several points with a constant-size proof.
//! The field and curve arithmetic is provided by `halo2curves`; everything
//! built on top of it is verified against a mathematical model of integers
//! modulo the group order.

pub mod kzg;
pub mod kzg_multiproof;
pub mod kzg_tools;
