//! The matrix chip: the inner accumulation of a tiled 8-bit product.

pub mod chip;
pub mod compute;
