//! The chips: each emits the constraints of one part of the circuit and fills
//! the cells they speak of.

pub mod input;
pub mod jackpot;
pub mod matmul;
pub mod parity;
pub mod selector;
pub mod stark_row;
pub mod stripe_xor;
pub mod tile_accum;
pub mod tile_reduce;
pub mod xstep;
