//! Columns of the stand-alone tile-accumulator chip.

use vstd::prelude::*;

verus! {

/// `1` on a row that updates a sub-block, `0` on padding.
pub const IS_ACTIVE: usize = 0;

/// `1` on a row that restarts its sub-block.
pub const IS_RESET: usize = IS_ACTIVE + 1;

/// One-hot sub-block selector.
pub const SB_SEL: usize = IS_RESET + 1;

pub const SB_SEL_LEN: usize = 64;

/// The selected sub-block's inner products.
pub const DOT: usize = SB_SEL + SB_SEL_LEN;

/// The accumulator entering this row.
pub const ACC: usize = DOT + 4;

pub const ACC_LEN: usize = 256;

/// Number of columns.
pub const ROW_W: usize = ACC + ACC_LEN;

} // verus!
