//! Column layout of the composite trace.

use vstd::prelude::*;

verus! {

/// Message bytes packed into one field element.
pub const BYTES_PER_GOLDILOCKS: usize = 4;

/// Bits of one range-checked limb.
pub const BITS_PER_LIMB: usize = 13;

/// Bytes of the block commitment.
pub const BLOCK_COMMITMENT_BYTES: usize = 32;

/// 32-bit words of the block commitment.
pub const BLOCK_COMMITMENT_WORDS: usize = 8;

/// Depth of one matrix micro-tile.
pub const TILE_D: usize = 16;

/// Height and width of one matrix micro-tile.
pub const TILE_H: usize = 2;

/// Slots of the jackpot state.
pub const JACKPOT_SIZE: usize = 16;

/// Left rotation applied to a jackpot slot at each update.
pub const LROT_PER_TILE: u32 = 13;

/// Trace rows of one hash instruction.
pub const ROUNDS_PER_BLAKE_INSTRUCTION: usize = 8;

/// Smallest number of trace rows, `2^13`.
pub const MIN_STARK_LEN: usize = 8192;

/// Table of `0..=255`.
pub const URANGE8_TABLE: usize = 0;

/// How often each `URANGE8_TABLE` entry is queried.
pub const URANGE8_FREQ: usize = 1;

/// Table of `0..=8191`.
pub const URANGE13_TABLE: usize = 2;

/// How often each `URANGE13_TABLE` entry is queried.
pub const URANGE13_FREQ: usize = 3;

/// Table of `-64..=64`.
pub const IRANGE7P1_TABLE: usize = 4;

/// How often each `IRANGE7P1_TABLE` entry is queried.
pub const IRANGE7P1_FREQ: usize = 5;

/// Table of `-128..=127`.
pub const IRANGE8_TABLE: usize = 6;

/// How often each `IRANGE8_TABLE` entry is queried.
pub const IRANGE8_FREQ: usize = 7;

/// Signed byte to unsigned byte conversion table.
pub const I8U8_TABLE: usize = 8;

/// Sign marker of the conversion table.
pub const I8U8_AUX: usize = 9;

/// How often each conversion entry is queried.
pub const I8U8_FREQ: usize = 10;

/// Number of range-table columns.
pub const NUM_RANGE_COLS: usize = 11;

/// Packed control word of the row's program.
pub const CONTROL_PREP: usize = NUM_RANGE_COLS;

pub const IS_RESET_CUMSUM: usize = CONTROL_PREP + 1;

pub const IS_UPDATE_CUMSUM: usize = IS_RESET_CUMSUM + 1;

pub const IS_USE_JOB_KEY: usize = IS_UPDATE_CUMSUM + 1;

pub const IS_USE_COMMITMENT_HASH: usize = IS_USE_JOB_KEY + 1;

pub const IS_HASH_A: usize = IS_USE_COMMITMENT_HASH + 1;

pub const IS_HASH_B: usize = IS_HASH_A + 1;

pub const IS_HASH_JACKPOT: usize = IS_HASH_B + 1;

pub const IS_CV_IN: usize = IS_HASH_JACKPOT + 1;

pub const IS_NEW_BLAKE: usize = IS_CV_IN + 1;

pub const IS_LAST_ROUND: usize = IS_NEW_BLAKE + 1;

pub const IS_MSG_MAT: usize = IS_LAST_ROUND + 1;

pub const IS_MSG_JACKPOT: usize = IS_MSG_MAT + 1;

pub const IS_MSG_AUX_DATA: usize = IS_MSG_JACKPOT + 1;

pub const IS_JOB_KEYED: usize = IS_MSG_AUX_DATA + 1;

pub const IS_LOAD: usize = IS_JOB_KEYED + 1;

pub const IS_XOR: usize = IS_LOAD + 1;

pub const IS_SHIFT3: usize = IS_XOR + 1;

pub const IS_STORE0: usize = IS_SHIFT3 + 1;

pub const IS_STORE1: usize = IS_STORE0 + 1;

pub const IS_STORE2: usize = IS_STORE1 + 1;

pub const IS_DUMP_CUMSUM_BUFFER: usize = IS_STORE2 + 1;

/// Number of control columns, the packed word included.
pub const NUM_CONTROL_COLS: usize = 22;

/// Matrix bytes carried by a row.
pub const MAT_UNPACK_LEN: usize = 64;

pub const MAT_UNPACK_WIN: usize = MAT_UNPACK_LEN;

pub const MAT_UNPACK_START: usize = CONTROL_PREP + NUM_CONTROL_COLS;

/// Message bytes carried by a row.
pub const UINT8_DATA_LEN: usize = 64;

pub const UINT8_DATA_WIN: usize = UINT8_DATA_LEN;

pub const UINT8_DATA_START: usize = MAT_UNPACK_START + MAT_UNPACK_LEN;

/// Packed noise words of the row's program.
pub const NOISE_PACKED_PREP: usize = UINT8_DATA_START + UINT8_DATA_LEN;

pub const NOISE_PACKED_PREP_LEN: usize = 8;

/// Noise bytes carried by a row.
pub const NOISE_UNPACK_LEN: usize = 64;

pub const NOISE_UNPACK_WIN: usize = NOISE_UNPACK_LEN;

pub const NOISE_UNPACK_START: usize = NOISE_PACKED_PREP + NOISE_PACKED_PREP_LEN;

/// Packed noised-matrix words carried by a row.
pub const NOISED_PACKED_LEN: usize = 16;

/// Packed noised-matrix words of one 8-byte slice.
pub const NOISED_PACKED_WIN: usize = 2;

pub const NOISED_PACKED_START: usize = NOISE_UNPACK_START + NOISE_UNPACK_LEN;

/// How often each stored slice of the row is read.
pub const MAT_FREQ: usize = NOISED_PACKED_START + NOISED_PACKED_LEN;

pub const MAT_FREQ_LEN: usize = 8;

/// Identifier of the row's first stored slice.
pub const MAT_ID: usize = MAT_FREQ + MAT_FREQ_LEN;

/// Limbs of the stored-slice identifier.
pub const MAT_ID_LIMBS_LEN: usize = 2;

pub const MAT_ID_LIMBS_START: usize = MAT_ID + 1;

/// Packed operand identifiers of the row's program.
pub const AB_ID_PREP: usize = MAT_ID_LIMBS_START + MAT_ID_LIMBS_LEN;

/// Limbs of the operand identifiers.
pub const AB_ID_LIMBS_LEN: usize = 4;

pub const AB_ID_LIMBS_START: usize = AB_ID_PREP + 1;

/// Operand slices read for the left tile.
pub const A_ID_LEN: usize = 4;

/// Operand slices read for the right tile.
pub const B_ID_LEN: usize = 4;

/// Identifiers of the left operand's slices.
pub const A_ID: usize = AB_ID_LIMBS_START + AB_ID_LIMBS_LEN;

/// Identifiers of the right operand's slices.
pub const B_ID: usize = A_ID + A_ID_LEN;

/// The row's own index.
pub const STARK_ROW_IDX: usize = B_ID + B_ID_LEN;

pub const A_NOISED_LEN: usize = 8;

pub const A_NOISED_START: usize = STARK_ROW_IDX + 1;

pub const A_NOISED_UNPACK_LEN: usize = 32;

pub const A_NOISED_UNPACK_START: usize = A_NOISED_START + A_NOISED_LEN;

pub const B_NOISED_LEN: usize = 8;

pub const B_NOISED_START: usize = A_NOISED_UNPACK_START + A_NOISED_UNPACK_LEN;

pub const B_NOISED_UNPACK_LEN: usize = 32;

pub const B_NOISED_UNPACK_START: usize = B_NOISED_START + B_NOISED_LEN;

pub const CUMSUM_TILE_LEN: usize = 4;

/// The running 2x2 accumulator.
pub const CUMSUM_TILE_START: usize = B_NOISED_UNPACK_START + B_NOISED_UNPACK_LEN;

pub const CUMSUM_BUFFER_LEN: usize = 4;

/// The dumped 2x2 accumulator.
pub const CUMSUM_BUFFER_START: usize = CUMSUM_TILE_START + CUMSUM_TILE_LEN;

pub const JACKPOT_MSG_LEN: usize = JACKPOT_SIZE;

/// The jackpot state.
pub const JACKPOT_MSG_START: usize = CUMSUM_BUFFER_START + CUMSUM_BUFFER_LEN;

pub const BIT_REG_LEN: usize = 32;

/// Bit register shared with the jackpot chip.
pub const BIT_REG_START: usize = JACKPOT_MSG_START + JACKPOT_MSG_LEN;

pub const JACKPOT_IDX_LEN: usize = 8;

/// Jackpot slot indices.
pub const JACKPOT_IDX_START: usize = BIT_REG_START + BIT_REG_LEN;

pub const BLAKE3_MSG_BUFFER_LEN: usize = 16;

/// Buffered hash message.
pub const BLAKE3_MSG_BUFFER_START: usize = JACKPOT_IDX_START + JACKPOT_IDX_LEN;

/// Chaining-value source or tweak of the row's program.
pub const CV_OR_TWEAK_PREP: usize = BLAKE3_MSG_BUFFER_START + BLAKE3_MSG_BUFFER_LEN;

pub const CV_IN_LEN: usize = 8;

/// Incoming chaining value.
pub const CV_IN_START: usize = CV_OR_TWEAK_PREP + 1;

pub const BLAKE3_MSG_LEN: usize = 16;

/// Hash message words.
pub const BLAKE3_MSG_START: usize = CV_IN_START + CV_IN_LEN;

pub const BLAKE3_CV_LEN: usize = 8;

/// Chaining value of the running compression.
pub const BLAKE3_CV_START: usize = BLAKE3_MSG_START + BLAKE3_MSG_LEN;

pub const BLAKE3_ROUND_LEN: usize = 1056;

/// State of one hash round.
pub const BLAKE3_ROUND_START: usize = BLAKE3_CV_START + BLAKE3_CV_LEN;

pub const CV_OUT_LEN: usize = 8;

/// Outgoing chaining value.
pub const CV_OUT_START: usize = BLAKE3_ROUND_START + BLAKE3_ROUND_LEN;

/// Bits of the word folded into the jackpot.
pub const JACKPOT_X_BITS_START: usize = CV_OUT_START + CV_OUT_LEN;

pub const JACKPOT_X_BITS_LEN: usize = 32;

/// One-hot jackpot slot selector.
pub const JACKPOT_SLOT_SEL_START: usize = JACKPOT_X_BITS_START + JACKPOT_X_BITS_LEN;

pub const JACKPOT_SLOT_SEL_LEN: usize = 16;

/// How often the row's chaining value is read.
pub const CV_OUT_FREQ: usize = JACKPOT_SLOT_SEL_START + JACKPOT_SLOT_SEL_LEN;

/// The row folds a stripe scalar into the state.
pub const FOLD_IS_FOLD: usize = CV_OUT_FREQ + 1;

pub const FOLD_SLOT_SEL_START: usize = FOLD_IS_FOLD + 1;

pub const FOLD_SLOT_SEL_LEN: usize = JACKPOT_SIZE;

/// The stripe scalar folded on this row.
pub const FOLD_XSTEP: usize = FOLD_SLOT_SEL_START + FOLD_SLOT_SEL_LEN;

pub const FOLD_XSTEP_BITS_START: usize = FOLD_XSTEP + 1;

pub const FOLD_XSTEP_BITS_LEN: usize = 32;

/// The folded state.
pub const FOLD_STATE_START: usize = FOLD_XSTEP_BITS_START + FOLD_XSTEP_BITS_LEN;

pub const FOLD_STATE_LEN: usize = JACKPOT_SIZE;

pub const FOLD_MCUR_BITS_START: usize = FOLD_STATE_START + FOLD_STATE_LEN;

pub const FOLD_MCUR_BITS_LEN: usize = 32;

pub const FOLD_XOR_OUT: usize = FOLD_MCUR_BITS_START + FOLD_MCUR_BITS_LEN;

/// Stripe lanes of the stripe-xor register.
pub const STRIPE_MAX: usize = 64;

/// The row folds an accumulator into the stripe-xor register.
pub const SX_IS_ACTIVE: usize = FOLD_XOR_OUT + 1;

pub const SX_LANE_SEL_START: usize = SX_IS_ACTIVE + 1;

pub const SX_LANE_SEL_LEN: usize = STRIPE_MAX;

pub const SX_IN_START: usize = SX_LANE_SEL_START + SX_LANE_SEL_LEN;

pub const SX_IN_LEN: usize = 4;

pub const SX_XR_START: usize = SX_IN_START + SX_IN_LEN;

pub const SX_XR_LEN: usize = STRIPE_MAX;

pub const SX_NEW_SEL: usize = SX_XR_START + SX_XR_LEN;

pub const SX_Q_START: usize = SX_NEW_SEL + 1;

pub const SX_Q_LEN: usize = 32;

pub const SX_END: usize = SX_Q_START + SX_Q_LEN;

pub const SX_IN_BITS_LEN: usize = 128;

pub const SX_XR_SEL_BITS_LEN: usize = 32;

pub const SX_NEW_SEL_BITS_LEN: usize = 32;

/// Bits of the folded cells, overlaid on the hash-round block.
pub const SX_IN_BITS_START: usize = BLAKE3_ROUND_START;

pub const SX_XR_SEL_BITS_START: usize = SX_IN_BITS_START + SX_IN_BITS_LEN;

pub const SX_NEW_SEL_BITS_START: usize = SX_XR_SEL_BITS_START + SX_XR_SEL_BITS_LEN;

/// Columns of the hash-round block that the stripe-xor bits overlay.
pub const SX_OVERLAY_LEN: usize = SX_IN_BITS_LEN + SX_XR_SEL_BITS_LEN + SX_NEW_SEL_BITS_LEN;

/// One-hot stripe selector of a fold row.
pub const FOLD_STRIPE_SEL_START: usize = SX_END;

pub const FOLD_STRIPE_SEL_LEN: usize = STRIPE_MAX;

pub const FOLD_STRIPE_SEL_END: usize = FOLD_STRIPE_SEL_START + FOLD_STRIPE_SEL_LEN;

/// One-hot message-pair selector.
pub const MSG_PAIR_SEL_START: usize = FOLD_STRIPE_SEL_END;

pub const MSG_PAIR_SEL_LEN: usize = 8;

pub const MSG_PAIR_SEL_END: usize = MSG_PAIR_SEL_START + MSG_PAIR_SEL_LEN;

/// The row starts a stripe segment.
pub const SX_SEG_RESET: usize = MSG_PAIR_SEL_END;

/// The row updates the held tile accumulator.
pub const TA_IS_ACTIVE: usize = SX_SEG_RESET + 1;

pub const TA_IS_RESET: usize = TA_IS_ACTIVE + 1;

pub const TA_SB_SEL_START: usize = TA_IS_RESET + 1;

pub const TA_SB_SEL_LEN: usize = 64;

pub const TA_DOT_START: usize = TA_SB_SEL_START + TA_SB_SEL_LEN;

pub const TA_DOT_LEN: usize = 4;

pub const TA_ACC_START: usize = TA_DOT_START + TA_DOT_LEN;

pub const TA_ACC_LEN: usize = 256;

pub const TA_END: usize = TA_ACC_START + TA_ACC_LEN;

/// The row reduces a sub-block into its stripe's scalar.
pub const TR_IS_ACTIVE: usize = TA_END;

pub const TR_STRIPE_RESET: usize = TR_IS_ACTIVE + 1;

pub const TR_IN_START: usize = TR_STRIPE_RESET + 1;

pub const TR_IN_LEN: usize = 4;

pub const TR_IN_BITS_START: usize = TR_IN_START + TR_IN_LEN;

pub const TR_IN_BITS_LEN: usize = 128;

pub const TR_XSTEP: usize = TR_IN_BITS_START + TR_IN_BITS_LEN;

pub const TR_XSTEP_BITS_START: usize = TR_XSTEP + 1;

pub const TR_XSTEP_BITS_LEN: usize = 32;

pub const TR_NEW: usize = TR_XSTEP_BITS_START + TR_XSTEP_BITS_LEN;

pub const TR_NEW_BITS_START: usize = TR_NEW + 1;

pub const TR_NEW_BITS_LEN: usize = 32;

pub const TR_Q_START: usize = TR_NEW_BITS_START + TR_NEW_BITS_LEN;

pub const TR_Q_LEN: usize = 32;

pub const TR_END: usize = TR_Q_START + TR_Q_LEN;

/// Packed stripe-xor schedule of the row's program.
pub const SX_CONTROL_PREP: usize = TR_END;

/// Packed tile schedule of the row's program.
pub const RB_CONTROL_PREP: usize = SX_CONTROL_PREP + 1;

/// Number of columns.
pub const TOTAL_TRACE_WIDTH: usize = RB_CONTROL_PREP + 1;

} // verus!
