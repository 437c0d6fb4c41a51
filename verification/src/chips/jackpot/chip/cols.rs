//! Columns of the stand-alone jackpot chip.

use vstd::prelude::*;

verus! {

/// The state entering this row.
pub const JACKPOT_MSG: usize = 0;

pub const JACKPOT_MSG_LEN: usize = 16;

/// The bits of the selected slot.
pub const V_BITS: usize = JACKPOT_MSG + JACKPOT_MSG_LEN;

pub const V_BITS_LEN: usize = 32;

/// The bits of the folded word.
pub const X_BITS: usize = V_BITS + V_BITS_LEN;

pub const X_BITS_LEN: usize = 32;

/// One-hot slot selector.
pub const SLOT_SEL: usize = X_BITS + X_BITS_LEN;

pub const SLOT_SEL_LEN: usize = 16;

/// `1` on a row that updates a slot.
pub const IS_ACTIVE: usize = SLOT_SEL + SLOT_SEL_LEN;

/// Number of columns.
pub const ROW_W: usize = IS_ACTIVE + 1;

} // verus!
