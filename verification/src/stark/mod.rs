//! High-level proving and verification logic built on the field,
//! polynomial, Merkle and FRI layers.

pub mod item;
pub mod laws;

pub use item::{StarkProofItem, StarkProofStream};
pub mod params;
pub mod prover;
pub mod openings;
pub mod verify;
pub mod complete;

pub use params::{bit_length, BoundaryConstraint, Stark};
