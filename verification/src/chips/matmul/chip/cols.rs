//! Columns of the stand-alone matrix chip.

use vstd::prelude::*;

verus! {

/// The left tile, row by row.
pub const A_UNPACK: usize = 0;

pub const A_UNPACK_LEN: usize = 32;

/// The right tile, row by row.
pub const B_UNPACK: usize = A_UNPACK + A_UNPACK_LEN;

pub const B_UNPACK_LEN: usize = 32;

/// The accumulator entering this row.
pub const CUMSUM: usize = B_UNPACK + B_UNPACK_LEN;

pub const CUMSUM_LEN: usize = 4;

/// `1` on a row that restarts the accumulator.
pub const IS_RESET_CUMSUM: usize = CUMSUM + CUMSUM_LEN;

/// `1` on a row that adds to the accumulator.
pub const IS_UPDATE_CUMSUM: usize = IS_RESET_CUMSUM + 1;

/// Unused.
pub const PADDING: usize = IS_UPDATE_CUMSUM + 1;

/// Number of columns.
pub const ROW_W: usize = PADDING + 1;

} // verus!
