//! Columns of the stand-alone x-step chip.

use vstd::prelude::*;

verus! {

/// `1` on a row that reduces an accumulator, `0` on padding.
pub const IS_ACTIVE: usize = 0;

/// The accumulator cells, as unsigned words.
pub const ACC: usize = IS_ACTIVE + 1;

/// The bits of the accumulator cells.
pub const ACC_BITS: usize = ACC + 64;

pub const ACC_BITS_LEN: usize = 2048;

/// The exclusive or of the cells.
pub const XSTEP: usize = ACC_BITS + ACC_BITS_LEN;

/// The bits of the exclusive or.
pub const XSTEP_BITS: usize = XSTEP + 1;

pub const XSTEP_BITS_LEN: usize = 32;

/// Seven quotient bits for each output bit.
pub const Q_BITS: usize = XSTEP_BITS + XSTEP_BITS_LEN;

pub const Q_BITS_LEN: usize = 224;

/// Number of columns.
pub const ROW_W: usize = Q_BITS + Q_BITS_LEN;

} // verus!
