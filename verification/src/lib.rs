//! Stabilizer simulation and decoding for rotated and XZZX surface codes.
pub mod bits;
pub mod blossom;
pub mod circuit_model;
pub mod circuit_shot;
pub mod logical_check;
pub mod decoder;
pub mod lattice;
pub mod pauli;
pub mod session;
pub mod session_decode;
pub mod shot;
pub mod simulator;
pub mod surface_code;
pub mod tableau;
