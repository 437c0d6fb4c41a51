//! Columns of the stand-alone tile-reduce chip.

use vstd::prelude::*;

verus! {

/// `1` on a row that reduces a sub-block, `0` on padding.
pub const IS_ACTIVE: usize = 0;

/// `1` on the first active row of a stripe.
pub const STRIPE_RESET: usize = IS_ACTIVE + 1;

/// The four signed words folded on this row.
pub const IN: usize = STRIPE_RESET + 1;

/// The bits of the four words.
pub const IN_BITS: usize = IN + 4;

pub const IN_BITS_LEN: usize = 128;

/// The running scalar entering this row.
pub const XSTEP: usize = IN_BITS + IN_BITS_LEN;

/// The bits of the running scalar.
pub const XSTEP_BITS: usize = XSTEP + 1;

pub const XSTEP_BITS_LEN: usize = 32;

/// The scalar's new value.
pub const NEW: usize = XSTEP_BITS + XSTEP_BITS_LEN;

/// The bits of the new value.
pub const NEW_BITS: usize = NEW + 1;

pub const NEW_BITS_LEN: usize = 32;

/// The parity quotient of each output bit.
pub const Q: usize = NEW_BITS + NEW_BITS_LEN;

pub const Q_LEN: usize = 32;

/// Number of columns.
pub const ROW_W: usize = Q + Q_LEN;

} // verus!
