//! The Poseidon permutation over the scalar field of BLS12-381 and the
//! fixed-arity hashes built from it.
//!
//! - `field`: field elements and their arithmetic.
//! - `params`: the parameter block, loaded from tables of hex constants.
//! - `sbox`: the cube, fifth-power and inverse S-boxes.
//! - `permutation`: the permutation and its model over integers.
//! - `hash`: hashes of 2, 4 and 8 inputs.
//! - `circuit`: linear combinations, constraints and what it is to meet them.
//! - `constraints`: the permutation, hashes and gadgets as constraints.
pub mod circuit;
pub mod constraints;
pub mod field;
pub mod hash;
pub mod params;
pub mod permutation;
pub mod sbox;
