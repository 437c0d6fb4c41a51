//! Verified constraint systems, trace builders and proof policies for the
//! matrix-multiplication proof-of-work circuit.

pub mod air;
pub mod bits;
pub mod bus;
pub mod chips;
pub mod circuit;
pub mod composite_full_air;
pub mod composite_full_air_with_lookups;
pub mod composite_layout;
pub mod composite_lookup_proof;
pub mod composite_lookups;
pub mod composite_proof;
pub mod composite_public;
pub mod composite_trace;
pub mod field;
pub mod matrix;
pub mod prime;
