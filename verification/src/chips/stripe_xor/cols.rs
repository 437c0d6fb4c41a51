//! Columns of the stand-alone stripe-xor chip.

use vstd::prelude::*;

verus! {

/// `1` on a row that folds its inputs, `0` on padding.
pub const IS_ACTIVE: usize = 0;

/// One-hot lane selector.
pub const LANE_SEL: usize = IS_ACTIVE + 1;

pub const LANE_SEL_LEN: usize = 64;

/// The four signed words folded on this row.
pub const IN: usize = LANE_SEL + LANE_SEL_LEN;

/// The bits of the four words.
pub const IN_BITS: usize = IN + 4;

pub const IN_BITS_LEN: usize = 128;

/// The register entering this row.
pub const XR: usize = IN_BITS + IN_BITS_LEN;

pub const XR_LEN: usize = 64;

/// The bits of the selected lane.
pub const XR_SEL_BITS: usize = XR + XR_LEN;

pub const XR_SEL_BITS_LEN: usize = 32;

/// The selected lane's new value.
pub const NEW_SEL: usize = XR_SEL_BITS + XR_SEL_BITS_LEN;

/// The bits of the new value.
pub const NEW_SEL_BITS: usize = NEW_SEL + 1;

pub const NEW_SEL_BITS_LEN: usize = 32;

/// The parity quotient of each output bit.
pub const Q: usize = NEW_SEL_BITS + NEW_SEL_BITS_LEN;

pub const Q_LEN: usize = 32;

/// `1` on the first row of a segment.
pub const SEG_RESET: usize = Q + Q_LEN;

/// Number of columns.
pub const ROW_W: usize = SEG_RESET + 1;

} // verus!
