//! Rows of the composite trace, by the names of their columns: which honest
//! rows the system accepts, and what an accepted row computes.

use vstd::prelude::*;

use crate::air::Window;
use crate::bits::{bit, has_bits, lemma_bits_value, lemma_zero_bit};
use crate::chips::input::{
    input_rules, lemma_four_bytes, lemma_four_digits, lemma_polyval_bytes,
    noised_words_are_matrix_plus_noise,
};
use crate::chips::jackpot::chip::laws::{
    active_row_spells_slot, active_transition_updates_slot,
    updating_window_meets_rules as jackpot_window_meets_rules,
};
use crate::chips::jackpot::chip::{jackpot_rules, JackpotOffsets};
use crate::chips::matmul::chip::laws::{
    accumulator_follows_tiles, lemma_dot_of_bytes, tile_cells,
};
use crate::chips::matmul::chip::{dot_cell, matmul_rules, MatmulOffsets};
use crate::chips::matmul::compute::product_sum;
use crate::chips::parity::{
    inputs, lemma_bit_count_four, lemma_boolean_passes, lemma_quotient, lemma_xor_fold_four,
    parity_filled, quotient, ParityOffsets,
};
use crate::chips::selector::{
    hot_index, lemma_none_hot_sum, lemma_one_hot_sum, none_hot, one_hot, selector_follows_flag,
};
use crate::chips::stark_row::stark_row_rules;
use crate::chips::stripe_xor::laws::{
    folding_window_meets_rules as stripe_fold_meets_rules,
    holding_window_meets_rules as stripe_hold_meets_rules, lemma_reset_row_zero,
    transition_folds_selected_lane,
};
use crate::chips::stripe_xor::{
    cumsum_link, stripe_xor_composite_rules, stripe_xor_rules, StripeXorOffsets,
};
use crate::chips::tile_accum::laws::{
    restart_needs_activity, transition_updates_selected_block,
    updating_window_meets_rules as tile_window_meets_rules,
};
use crate::chips::tile_accum::{tile_accum_rules, TileAccumOffsets};
use crate::chips::tile_reduce::laws::{
    active_row_folds_inputs, folding_window_meets_rules as reduce_fold_meets_rules,
    holding_window_meets_rules as reduce_hold_meets_rules, lemma_fresh_row,
    transition_folds_inputs,
};
use crate::chips::tile_reduce::{tile_reduce_rules, TileReduceOffsets};
use crate::composite_full_air::laws::{
    composite_window, folded_cells_are_accumulator, held_dots_are_tile_products, lemma_glue,
    limbs_in_range,
    lemma_none_hot_index, lemma_none_hot_strided, lemma_one_hot_index, lemma_one_hot_strided,
    lemma_rb_word, lemma_stripe_bind, lemma_sx_word, message_words_hold_bytes,
    rb_word_fixes_schedule, sx_word_fixes_schedule,
};
use crate::composite_full_air::links::{
    column_link_at, pack_link, pack_link_at, public_link, public_link_at, public_value_at,
    same_value_at,
};
use crate::composite_full_air::{
    composite_rules, dot_link, fold_link, glue_rules, is_program_of, message_rules, pin_at,
    pinned_rules, program_col, reduce_link, schedule_rules, PROGRAM_WIDTH,
};
use crate::composite_layout::{
    AB_ID_LIMBS_START, AB_ID_PREP, A_ID, A_NOISED_START, A_NOISED_UNPACK_START, BIT_REG_START,
    BLAKE3_MSG_START, B_ID, B_NOISED_START, B_NOISED_UNPACK_START, CONTROL_PREP,
    CUMSUM_TILE_START, CV_IN_START, CV_OR_TWEAK_PREP, CV_OUT_START, FOLD_IS_FOLD, FOLD_STATE_START,
    FOLD_STRIPE_SEL_START, FOLD_XSTEP, IS_HASH_A, IS_HASH_B, IS_HASH_JACKPOT, IS_JOB_KEYED,
    IS_MSG_JACKPOT, IS_MSG_MAT, IS_NEW_BLAKE,
    IS_RESET_CUMSUM, IS_UPDATE_CUMSUM, IS_USE_COMMITMENT_HASH, IS_USE_JOB_KEY, JACKPOT_MSG_START,
    JACKPOT_SLOT_SEL_START, JACKPOT_X_BITS_START, MAT_UNPACK_START, MSG_PAIR_SEL_START,
    NOISED_PACKED_START, NOISE_PACKED_PREP, NOISE_UNPACK_START, RB_CONTROL_PREP, STARK_ROW_IDX,
    SX_CONTROL_PREP, SX_IN_BITS_START, SX_IN_START, SX_IS_ACTIVE, SX_LANE_SEL_START, SX_NEW_SEL,
    SX_NEW_SEL_BITS_START, SX_Q_START, SX_SEG_RESET, SX_XR_SEL_BITS_START, SX_XR_START,
    TA_ACC_START, TA_DOT_START, TA_IS_ACTIVE, TA_IS_RESET, TA_SB_SEL_START, TOTAL_TRACE_WIDTH,
    TR_IN_BITS_START,
    TR_IN_START, TR_IS_ACTIVE, TR_NEW, TR_NEW_BITS_START, TR_Q_START, TR_STRIPE_RESET, TR_XSTEP,
    TR_XSTEP_BITS_START, UINT8_DATA_START,
};
use crate::composite_public::{
    PI_COMMITMENT_HASH_OFFSET, PI_CUMSUM_OFFSET, PI_HASH_A_OFFSET, PI_HASH_B_OFFSET,
    PI_HASH_JACKPOT_OFFSET, PI_JACKPOT_OFFSET, PI_JOB_KEY_OFFSET,
};
use crate::field::{
    canonical, decode_i32, enc, is_zero, lemma_enc_feq, lemma_enc_small, lemma_feq_canonical,
    lemma_zero_add, lemma_zero_mul,
};
use crate::matrix::{lemma_row_canonical, RowMajorMatrix};

verus! {

/// The row holds its own index, and the row below the next one.
pub open spec fn row_is_counted(w: Window, r: int) -> bool {
    &&& w.cur[STARK_ROW_IDX as int] == enc(r)
    &&& w.first ==> r == 0
    &&& !w.last ==> w.nxt[STARK_ROW_IDX as int] == enc(r + 1)
}

/// The row holds 64 matrix bytes and 64 noise bytes, and their packed words.
#[verifier::opaque]
pub open spec fn row_holds_inputs(s: Seq<u64>, mat: Seq<i8>, noise: Seq<i8>) -> bool {
    &&& forall|k: int| 0 <= k < 64 ==> s[MAT_UNPACK_START + k] == enc(#[trigger] mat[k] as int)
    &&& forall|k: int| 0 <= k < 64 ==> s[NOISE_UNPACK_START + k] == enc(#[trigger] noise[k] as int)
    &&& forall|i: int|
        0 <= i < 16 ==> #[trigger] s[NOISED_PACKED_START + i] == enc(
            (mat[4 * i] + noise[4 * i]) + 256 * (mat[4 * i + 1] + noise[4 * i + 1]) + 65536 * (mat[4
                * i + 2] + noise[4 * i + 2]) + 16777216 * (mat[4 * i + 3] + noise[4 * i + 3]),
        )
    &&& forall|k: int|
        0 <= k < 8 ==> #[trigger] s[NOISE_PACKED_PREP + k] == enc(
            noise[8 * k] + 129 * noise[8 * k + 1] + 16641 * noise[8 * k + 2] + 2146689 * noise[8 * k
                + 3] + 276922881 * noise[8 * k + 4] + 35723051649 * noise[8 * k + 5] + 4608273662721
                * noise[8 * k + 6] + 594467302491009 * noise[8 * k + 7],
        )
}

/// The row holds two operand tiles, at most one of the flags is set, and the
/// accumulator below is the products after a reset, the sums after an update,
/// and the same otherwise.
#[verifier::opaque]
pub open spec fn row_multiplies(w: Window, a: Seq<Seq<i8>>, b: Seq<Seq<i8>>) -> bool {
    let reset = w.cur[IS_RESET_CUMSUM as int];
    let update = w.cur[IS_UPDATE_CUMSUM as int];
    &&& tile_cells(w.cur, A_NOISED_UNPACK_START as int, a)
    &&& tile_cells(w.cur, B_NOISED_UNPACK_START as int, b)
    &&& reset + update <= 1
    &&& !w.last ==> forall|k: int|
        0 <= k < 4 ==> #[trigger] w.nxt[CUMSUM_TILE_START + k] == if reset == 1 {
            enc(product_sum(a[k / 2], b[k % 2]))
        } else if update == 1 {
            enc(w.cur[CUMSUM_TILE_START + k] + product_sum(a[k / 2], b[k % 2]))
        } else {
            w.cur[CUMSUM_TILE_START + k] as int
        }
}

/// Where the row reads its operands, eight words pack each tile, four bytes to
/// a word.
#[verifier::opaque]
pub open spec fn row_packs_operands(s: Seq<u64>, a: Seq<Seq<i8>>, b: Seq<Seq<i8>>) -> bool {
    s[IS_RESET_CUMSUM as int] + s[IS_UPDATE_CUMSUM as int] == 0 || {
        &&& forall|i: int| 0 <= i < 8 ==> #[trigger] s[A_NOISED_START + i] == enc(tile_word(a, i))
        &&& forall|i: int| 0 <= i < 8 ==> #[trigger] s[B_NOISED_START + i] == enc(tile_word(b, i))
    }
}

/// The value of four successive bytes of a tile.
pub open spec fn tile_word(tile: Seq<Seq<i8>>, i: int) -> int {
    let row = tile[i / 4];
    let at = (i % 4) * 4;
    row[at] + 256 * row[at + 1] + 65536 * row[at + 2] + 16777216 * row[at + 3]
}

/// The operand identifiers have two limbs of thirteen bits each, and the
/// packed word holds both identifiers, 26 bits each.
#[verifier::opaque]
pub open spec fn row_names_operands(s: Seq<u64>) -> bool {
    let low_a = s[AB_ID_LIMBS_START as int];
    let high_a = s[AB_ID_LIMBS_START + 1];
    let low_b = s[AB_ID_LIMBS_START + 2];
    let high_b = s[AB_ID_LIMBS_START + 3];
    &&& low_a < 8192 && high_a < 8192 && low_b < 8192 && high_b < 8192
    &&& s[A_ID as int] == low_a + 8192 * high_a
    &&& s[B_ID as int] == low_b + 8192 * high_b
    &&& s[AB_ID_PREP as int] == s[A_ID as int] + 0x400_0000 * s[B_ID as int]
}

/// The row updates a jackpot slot, or none.
#[verifier::opaque]
pub open spec fn row_updates_jackpot(w: Window, slot: int, v: u32, x: u32) -> bool {
    let active = w.cur[IS_HASH_JACKPOT as int];
    &&& has_bits(w.cur, BIT_REG_START as int, v)
    &&& has_bits(w.cur, JACKPOT_X_BITS_START as int, x)
    &&& active == 0 && none_hot(w.cur, JACKPOT_SLOT_SEL_START as int, 16) || active == 1 && 0
        <= slot < 16 && one_hot(w.cur, JACKPOT_SLOT_SEL_START as int, 16, slot)
        && w.cur[JACKPOT_MSG_START + slot] == v
    &&& !w.last && active == 1 ==> forall|i: int|
        0 <= i < 16 ==> #[trigger] w.nxt[JACKPOT_MSG_START + i] == if i == slot {
            (((v << 13) | (v >> 19)) ^ x) as u64
        } else {
            w.cur[JACKPOT_MSG_START + i]
        }
}

/// The schedule words of a row that folds into a lane of the stripe register,
/// or into none, and works on a sub-block of the tile, or on none.
#[verifier::opaque]
pub open spec fn row_is_scheduled(s: Seq<u64>, lane: int, block: int) -> bool {
    let folds = s[SX_IS_ACTIVE as int];
    let works = s[TA_IS_ACTIVE as int];
    let rest = 2 * s[TA_IS_RESET as int] + 256 * s[TR_IS_ACTIVE as int] + 512
        * s[TR_STRIPE_RESET as int];
    &&& folds == 0 && none_hot(s, SX_LANE_SEL_START as int, 64) && s[SX_CONTROL_PREP as int] == 0
        || folds == 1 && 0 <= lane < 64 && one_hot(s, SX_LANE_SEL_START as int, 64, lane)
        && s[SX_CONTROL_PREP as int] == 1 + 2 * lane
    &&& works == 0 && none_hot(s, TA_SB_SEL_START as int, 64) && s[RB_CONTROL_PREP as int] == rest
        || works == 1 && 0 <= block < 64 && one_hot(s, TA_SB_SEL_START as int, 64, block)
        && s[RB_CONTROL_PREP as int] == 1 + 4 * block + rest
}

/// Where the tile accumulator is at work, its inner products are those of the
/// operand tiles; where the reduction is, its inputs are the four cells of the
/// selected sub-block in the row below, and zero where none is selected.
#[verifier::opaque]
pub open spec fn row_feeds_tile(w: Window, a: Seq<Seq<i8>>, b: Seq<Seq<i8>>, block: int) -> bool {
    &&& w.cur[TA_IS_ACTIVE as int] == 0 || forall|k: int|
        0 <= k < 4 ==> #[trigger] w.cur[TA_DOT_START + k] == enc(product_sum(a[k / 2], b[k % 2]))
    &&& w.last || w.cur[TR_IS_ACTIVE as int] == 0 || forall|i: int|
        0 <= i < 4 ==> #[trigger] w.cur[TR_IN_START + i] == if w.cur[TA_IS_ACTIVE as int] == 1 {
            w.nxt[TA_ACC_START + 4 * block + i]
        } else {
            0
        }
}

/// Eight cells of the row are eight public values.
pub open spec fn cells_are_public(w: Window, column: int, public: int) -> bool {
    forall|i: int| 0 <= i < 8 ==> #[trigger] w.cur[column + i] == w.public[public + i]
}

/// Where a row is marked for a digest or a key, it holds the public one.
#[verifier::opaque]
pub open spec fn row_shows_digests(w: Window) -> bool {
    let out = CV_OUT_START as int;
    let key = CV_IN_START as int;
    let jackpot = w.cur[IS_HASH_JACKPOT as int];
    &&& w.cur[IS_HASH_A as int] == 0 || cells_are_public(w, out, PI_HASH_A_OFFSET as int)
    &&& w.cur[IS_HASH_B as int] == 0 || cells_are_public(w, out, PI_HASH_B_OFFSET as int)
    &&& jackpot == 0 || cells_are_public(w, out, PI_HASH_JACKPOT_OFFSET as int)
    &&& jackpot == 0 || cells_are_public(w, key, PI_COMMITMENT_HASH_OFFSET as int)
    &&& w.cur[IS_USE_JOB_KEY as int] == 0 || cells_are_public(w, key, PI_JOB_KEY_OFFSET as int)
    &&& w.cur[IS_USE_COMMITMENT_HASH as int] == 0 || cells_are_public(
        w,
        key,
        PI_COMMITMENT_HASH_OFFSET as int,
    )
}

/// On the first round of a matrix message one pair is selected and each of the
/// sixteen message words is the value of its four bytes; elsewhere no pair is
/// selected.
#[verifier::opaque]
pub open spec fn row_spells_message(s: Seq<u64>, pair: int) -> bool {
    if s[IS_MSG_MAT as int] == 1 && s[IS_NEW_BLAKE as int] == 1 {
        &&& 0 <= pair < 8
        &&& one_hot(s, MSG_PAIR_SEL_START as int, 8, pair)
        &&& forall|i: int|
            0 <= i < 16 ==> #[trigger] s[BLAKE3_MSG_START + i] == enc(
                s[UINT8_DATA_START + 4 * i] + 256 * s[UINT8_DATA_START + 4 * i + 1] + 65536
                    * s[UINT8_DATA_START + 4 * i + 2] + 16777216 * s[UINT8_DATA_START + 4 * i + 3],
            )
    } else {
        &&& s[IS_MSG_MAT as int] == 0 || s[IS_NEW_BLAKE as int] == 0
        &&& none_hot(s, MSG_PAIR_SEL_START as int, 8)
    }
}

/// On the last row the accumulator and the jackpot state are the public ones.
#[verifier::opaque]
pub open spec fn row_shows_outcome(w: Window) -> bool {
    w.last ==> {
        &&& forall|i: int|
            0 <= i < 4 ==> #[trigger] w.cur[CUMSUM_TILE_START + i] == w.public[PI_CUMSUM_OFFSET + i]
        &&& forall|i: int|
            0 <= i < 16 ==> #[trigger] w.cur[JACKPOT_MSG_START + i] == w.public[PI_JACKPOT_OFFSET
                + i]
    }
}

/// A counted row meets the counting rules.
proof fn lemma_counted(w: Window, r: int)
    requires
        row_is_counted(w, r),
    ensures
        stark_row_rules(w),
{
    lemma_enc_small(0);
    lemma_enc_feq(r);
    lemma_enc_feq(r + 1);
    lemma_zero_add(enc(r + 1) - (r + 1), enc(r) - r);
}

/// Packed operand words.
proof fn lemma_packed_operands(
    s: Seq<u64>,
    gate: int,
    packed: int,
    bytes: int,
    tile: Seq<Seq<i8>>,
)
    requires
        tile_cells(s, bytes, tile),
        gate == 0 || forall|i: int|
            0 <= i < 8 ==> #[trigger] s[packed + i] == enc(tile_word(tile, i)),
    ensures
        pack_link(gate, s, packed, bytes, 8),
{
    assert forall|i: int| 0 <= i < 8 implies #[trigger] pack_link_at(gate, s, packed, bytes, i) by {
        let row = tile[i / 4];
        let at = (i % 4) * 4;
        let value = crate::air::polyval(s, bytes + i * 4, 4, 256);
        if gate == 0 {
            assert(0 * (s[packed + i] - value) == 0);
        } else {
            assert forall|k: int| at <= k < at + 4 implies s[bytes + i * 4 + (k - at)] == enc(
                #[trigger] row[k] as int,
            ) by {
                assert(s[bytes + (i / 4) * 16 + k] == enc(tile[i / 4][k] as int));
            }
            lemma_polyval_bytes(s, bytes + i * 4, row, at, 4, 256);
            lemma_four_bytes(row, at);
            let word = tile_word(tile, i);
            assert(s[packed + i] == enc(word));
            lemma_enc_feq(word);
            lemma_zero_add(enc(word) - word, value - word);
            lemma_zero_mul(s[packed + i] - value, gate);
        }
    }
}

/// The schedule words.
proof fn lemma_scheduled(s: Seq<u64>, lane: int, block: int)
    requires
        row_is_scheduled(s, lane, block),
    ensures
        schedule_rules(s),
{
    reveal(row_is_scheduled);
    lemma_enc_small(0);
    if s[SX_IS_ACTIVE as int] == 1 {
        lemma_one_hot_index(s, SX_LANE_SEL_START as int, 64, lane);
    } else {
        lemma_none_hot_index(s, SX_LANE_SEL_START as int, 64);
    }
    if s[TA_IS_ACTIVE as int] == 1 {
        lemma_one_hot_index(s, TA_SB_SEL_START as int, 64, block);
    } else {
        lemma_none_hot_index(s, TA_SB_SEL_START as int, 64);
    }
}

/// What the tile chips are fed.
proof fn lemma_fed(w: Window, a: Seq<Seq<i8>>, b: Seq<Seq<i8>>, lane: int, block: int)
    requires
        tile_cells(w.cur, A_NOISED_UNPACK_START as int, a),
        tile_cells(w.cur, B_NOISED_UNPACK_START as int, b),
        row_is_scheduled(w.cur, lane, block),
        row_feeds_tile(w, a, b, block),
    ensures
        forall|k: int| 0 <= k < 4 ==> #[trigger] dot_link(w.cur, k),
        !w.last ==> forall|i: int| 0 <= i < 4 ==> #[trigger] reduce_link(w, i),
{
    reveal(row_is_scheduled);
    reveal(row_feeds_tile);
    let s = w.cur;
    lemma_enc_small(0);
    assert forall|k: int| 0 <= k < 4 implies #[trigger] dot_link(s, k) by {
        let cells = dot_cell(MatmulOffsets::composite(), s, k);
        let d = s[TA_DOT_START + k] - cells;
        if s[TA_IS_ACTIVE as int] == 0 {
            assert(0 * d == 0);
        } else {
            let dot = product_sum(a[k / 2], b[k % 2]);
            lemma_dot_of_bytes(MatmulOffsets::composite(), s, a, b, k);
            assert(s[TA_DOT_START + k] == enc(dot));
            lemma_enc_feq(dot);
            lemma_zero_add(enc(dot) - dot, cells - dot);
            assert(1 * d == d);
        }
    }
    if !w.last {
        assert forall|i: int| 0 <= i < 4 implies #[trigger] reduce_link(w, i) by {
            let at = TA_ACC_START + i;
            let start = TA_SB_SEL_START as int;
            let picked = crate::air::strided_dot(s, start, w.nxt, at, 4, 64);
            let d = s[TR_IN_START + i] - picked;
            if s[TR_IS_ACTIVE as int] == 0 {
                assert(0 * d == 0);
            } else {
                if s[TA_IS_ACTIVE as int] == 1 {
                    lemma_one_hot_strided(s, start, w.nxt, at, 4, 64, block);
                } else {
                    lemma_none_hot_strided(s, start, w.nxt, at, 4, 64);
                }
                assert(d == 0);
                assert(s[TR_IS_ACTIVE as int] * 0 == 0);
            }
        }
    }
}

/// A link to public values.
proof fn lemma_public_link(w: Window, flag: int, column: int, public: int)
    requires
        w.cur[flag] == 0 || cells_are_public(w, column, public),
    ensures
        public_link(w, flag, column, public, 8),
{
    lemma_enc_small(0);
    assert forall|i: int| 0 <= i < 8 implies #[trigger] public_link_at(
        w,
        flag,
        column,
        public,
        i,
    ) by {
        let d = w.cur[column + i] - w.public[public + i];
        if w.cur[flag] == 0 {
            assert(0 * d == 0);
        } else {
            assert(w.cur[column + i] == w.public[public + i]);
            assert(w.cur[flag] * 0 == 0);
        }
    }
}

/// The message words.
proof fn lemma_spelled(s: Seq<u64>, pair: int)
    requires
        row_spells_message(s, pair),
    ensures
        message_rules(s),
{
    reveal(row_spells_message);
    let start = MSG_PAIR_SEL_START as int;
    let gate = s[IS_MSG_MAT as int] * s[IS_NEW_BLAKE as int];
    lemma_enc_small(0);
    if s[IS_MSG_MAT as int] == 1 && s[IS_NEW_BLAKE as int] == 1 {
        assert(gate == 1);
        lemma_one_hot_sum(s, start, 8, pair);
        assert forall|i: int| 0 <= i < 16 implies #[trigger] pack_link_at(
            gate,
            s,
            BLAKE3_MSG_START as int,
            UINT8_DATA_START as int,
            i,
        ) by {
            let at = UINT8_DATA_START + i * 4;
            lemma_four_digits(s, at);
            let value = crate::air::polyval(s, at, 4, 256);
            assert(s[BLAKE3_MSG_START + i] == enc(value));
            lemma_enc_feq(value);
            lemma_zero_mul(s[BLAKE3_MSG_START + i] - value, gate);
        }
    } else {
        assert(gate == 0) by (nonlinear_arith)
            requires
                gate == s[IS_MSG_MAT as int] * s[IS_NEW_BLAKE as int],
                s[IS_MSG_MAT as int] == 0 || s[IS_NEW_BLAKE as int] == 0,
        ;
        lemma_none_hot_sum(s, start, 8);
        assert forall|i: int| 0 <= i < 16 implies #[trigger] pack_link_at(
            gate,
            s,
            BLAKE3_MSG_START as int,
            UINT8_DATA_START as int,
            i,
        ) by {
            let d = s[BLAKE3_MSG_START + i] - crate::air::polyval(
                s,
                UINT8_DATA_START + i * 4,
                4,
                256,
            );
            assert(0 * d == 0);
        }
    }
    lemma_boolean_passes(0, s, start, 8);
}

/// The rules between the chips.
proof fn lemma_linked(
    w: Window,
    a: Seq<Seq<i8>>,
    b: Seq<Seq<i8>>,
    lane: int,
    block: int,
    pair: int,
)
    requires
        row_multiplies(w, a, b),
        row_packs_operands(w.cur, a, b),
        row_names_operands(w.cur),
        row_is_scheduled(w.cur, lane, block),
        row_feeds_tile(w, a, b, block),
        row_shows_digests(w),
        row_spells_message(w.cur, pair),
        row_shows_outcome(w),
    ensures
        glue_rules(w),
{
    reveal(glue_rules);
    reveal(row_multiplies);
    reveal(row_packs_operands);
    reveal(row_names_operands);
    reveal(row_shows_digests);
    reveal(row_shows_outcome);
    let s = w.cur;
    let gate = s[IS_RESET_CUMSUM as int] + s[IS_UPDATE_CUMSUM as int];
    lemma_enc_small(0);
    lemma_scheduled(s, lane, block);
    lemma_fed(w, a, b, lane, block);
    lemma_packed_operands(s, gate, A_NOISED_START as int, A_NOISED_UNPACK_START as int, a);
    lemma_packed_operands(s, gate, B_NOISED_START as int, B_NOISED_UNPACK_START as int, b);
    lemma_public_link(w, IS_HASH_A as int, CV_OUT_START as int, PI_HASH_A_OFFSET as int);
    lemma_public_link(w, IS_HASH_B as int, CV_OUT_START as int, PI_HASH_B_OFFSET as int);
    lemma_public_link(
        w,
        IS_HASH_JACKPOT as int,
        CV_OUT_START as int,
        PI_HASH_JACKPOT_OFFSET as int,
    );
    lemma_public_link(w, IS_USE_JOB_KEY as int, CV_IN_START as int, PI_JOB_KEY_OFFSET as int);
    lemma_public_link(
        w,
        IS_USE_COMMITMENT_HASH as int,
        CV_IN_START as int,
        PI_COMMITMENT_HASH_OFFSET as int,
    );
    lemma_public_link(
        w,
        IS_HASH_JACKPOT as int,
        CV_IN_START as int,
        PI_COMMITMENT_HASH_OFFSET as int,
    );
    lemma_spelled(s, pair);
    if w.last {
        assert forall|i: int| 0 <= i < 4 implies #[trigger] public_value_at(
            w,
            CUMSUM_TILE_START as int,
            PI_CUMSUM_OFFSET as int,
            i,
        ) by {
            assert(w.cur[CUMSUM_TILE_START + i] == w.public[PI_CUMSUM_OFFSET + i]);
        }
        assert forall|i: int| 0 <= i < 16 implies #[trigger] public_value_at(
            w,
            JACKPOT_MSG_START as int,
            PI_JACKPOT_OFFSET as int,
            i,
        ) by {
            assert(w.cur[JACKPOT_MSG_START + i] == w.public[PI_JACKPOT_OFFSET + i]);
        }
    }
}

/// Columns spell out a fold of four signed words into a word: the words and
/// their bits, the old word's bits, the new word and its bits, and at each
/// position half of what the five bits exceed the new bit by.
pub open spec fn spells_fold(
    s: Seq<u64>,
    cells: int,
    bits: int,
    old_bits: int,
    new: int,
    new_bits: int,
    halves: int,
    x: u32,
    in4: Seq<i32>,
) -> bool {
    let y = x ^ (in4[0] as u32) ^ (in4[1] as u32) ^ (in4[2] as u32) ^ (in4[3] as u32);
    &&& in4.len() == 4
    &&& forall|c: int| 0 <= c < 4 ==> s[cells + c] == enc(#[trigger] in4[c] as int)
    &&& forall|c: int| 0 <= c < 4 ==> has_bits(s, bits + c * 32, #[trigger] in4[c] as u32)
    &&& has_bits(s, old_bits, x)
    &&& s[new] == y
    &&& has_bits(s, new_bits, y)
    &&& forall|j: int|
        halves <= j < halves + 32 ==> 2 * (#[trigger] s[j]) + bit(y, j - halves) == bit(
            x,
            j - halves,
        ) + bit(in4[0] as u32, j - halves) + bit(in4[1] as u32, j - halves) + bit(
            in4[2] as u32,
            j - halves,
        ) + bit(in4[3] as u32, j - halves)
}

/// A fold that is spelled out fills its columns.
proof fn lemma_spelled_fold(off: ParityOffsets, s: Seq<u64>, x: u32, in4: Seq<i32>)
    requires
        spells_fold(
            s,
            off.in_cells as int,
            off.in_bits as int,
            off.op_bits as int,
            off.new as int,
            off.new_bits as int,
            off.q as int,
            x,
            in4,
        ),
    ensures
        parity_filled(off, s, x, in4),
{
    lemma_xor_fold_four(x, in4);
    assert forall|j: int| off.q <= j < off.q + 32 implies #[trigger] s[j] == quotient(
        x,
        in4,
        j - off.q,
    ) by {
        let i = j - off.q;
        lemma_quotient(x, in4, i);
        lemma_bit_count_four(in4, i);
    }
}

/// The row keeps the stripe register. It holds zero on the first row and where
/// the row resets. A folding row spells out the fold of the accumulator below
/// into its lane, and the row below, which does not reset, holds the result; a
/// row that does not fold hands the register on, unless the row below resets.
#[verifier::opaque]
pub open spec fn row_keeps_stripes(w: Window, xr: Seq<u32>, lane: int, in4: Seq<i32>) -> bool {
    let s = w.cur;
    let reset = s[SX_SEG_RESET as int];
    &&& forall|k: int| 0 <= k < 64 ==> s[SX_XR_START + k] == #[trigger] xr[k]
    &&& reset == 0 || reset == 1
    &&& w.first || reset == 1 ==> forall|k: int| 0 <= k < 64 ==> #[trigger] xr[k] == 0
    &&& if s[SX_IS_ACTIVE as int] == 1 {
        &&& spells_fold(
            s,
            SX_IN_START as int,
            SX_IN_BITS_START as int,
            SX_XR_SEL_BITS_START as int,
            SX_NEW_SEL as int,
            SX_NEW_SEL_BITS_START as int,
            SX_Q_START as int,
            xr[lane],
            in4,
        )
        &&& !w.last ==> {
            &&& w.nxt[SX_SEG_RESET as int] == 0
            &&& forall|k: int|
                0 <= k < 64 ==> #[trigger] w.nxt[SX_XR_START + k] == if k == lane {
                    s[SX_NEW_SEL as int]
                } else {
                    xr[k] as u64
                }
            &&& forall|k: int|
                0 <= k < 4 ==> #[trigger] s[SX_IN_START + k] == w.nxt[CUMSUM_TILE_START + k]
        }
    } else {
        &&& s[SX_NEW_SEL as int] == 0
        &&& forall|j: int| SX_Q_START <= j < SX_Q_START + 32 ==> (#[trigger] s[j]) <= 2
        &&& w.last || w.nxt[SX_SEG_RESET as int] == 1 || forall|k: int|
            0 <= k < 64 ==> w.nxt[SX_XR_START + k] == #[trigger] xr[k]
    }
}

/// A folding row meets the register's rules.
proof fn lemma_stripes_folded(w: Window, xr: Seq<u32>, lane: int, block: int, in4: Seq<i32>)
    requires
        row_is_scheduled(w.cur, lane, block),
        row_keeps_stripes(w, xr, lane, in4),
        w.cur[SX_IS_ACTIVE as int] == 1,
    ensures
        stripe_xor_rules(StripeXorOffsets::composite(), true, w),
        !w.last ==> forall|k: int|
            0 <= k < 4 ==> #[trigger] w.cur[SX_IN_START + k] == w.nxt[CUMSUM_TILE_START + k],
{
    reveal(row_is_scheduled);
    reveal(row_keeps_stripes);
    let off = StripeXorOffsets::composite();
    let s = w.cur;
    lemma_spelled_fold(off.parity(), s, xr[lane], in4);
    assert(one_hot(s, off.lane_sel as int, 64, lane));
    let y = xr[lane] ^ (in4[0] as u32) ^ (in4[1] as u32) ^ (in4[2] as u32) ^ (in4[3] as u32);
    assert(s[SX_NEW_SEL as int] == y);
    stripe_fold_meets_rules(off, w, xr, lane, in4);
}

/// A row that does not fold meets the register's rules.
proof fn lemma_stripes_held(w: Window, xr: Seq<u32>, lane: int, block: int, in4: Seq<i32>)
    requires
        row_is_scheduled(w.cur, lane, block),
        row_keeps_stripes(w, xr, lane, in4),
        w.cur[SX_IS_ACTIVE as int] == 0,
    ensures
        stripe_xor_rules(StripeXorOffsets::composite(), true, w),
{
    reveal(row_is_scheduled);
    reveal(row_keeps_stripes);
    stripe_hold_meets_rules(StripeXorOffsets::composite(), w, xr);
}

/// A row that keeps the stripe register meets its rules.
proof fn lemma_stripes_kept(w: Window, xr: Seq<u32>, lane: int, block: int, in4: Seq<i32>)
    requires
        row_is_scheduled(w.cur, lane, block),
        row_keeps_stripes(w, xr, lane, in4),
    ensures
        stripe_xor_composite_rules(w),
{
    let s = w.cur;
    lemma_enc_small(0);
    assert(s[SX_IS_ACTIVE as int] == 0 || s[SX_IS_ACTIVE as int] == 1) by {
        reveal(row_is_scheduled);
    }
    if s[SX_IS_ACTIVE as int] == 1 {
        lemma_stripes_folded(w, xr, lane, block, in4);
    } else {
        lemma_stripes_held(w, xr, lane, block, in4);
    }
    if !w.last {
        assert forall|k: int| 0 <= k < 4 implies #[trigger] cumsum_link(w, k) by {
            let d = s[SX_IN_START + k] - w.nxt[CUMSUM_TILE_START + k];
            if s[SX_IS_ACTIVE as int] == 1 {
                assert(s[SX_IN_START + k] == w.nxt[CUMSUM_TILE_START + k]);
                assert(1 * 0 == 0);
            } else {
                assert(0 * d == 0);
            }
        }
    }
}

/// The row keeps the tile accumulator: it starts at zero, only rows at work
/// restart anything, the selected sub-block takes its inner products alone or
/// added on, and every other cell is handed on.
#[verifier::opaque]
pub open spec fn row_keeps_tile(w: Window, block: int) -> bool {
    let s = w.cur;
    let works = s[TA_IS_ACTIVE as int] == 1;
    let restarts = s[TA_IS_RESET as int];
    &&& restarts == 0 || works && restarts == 1
    &&& w.first ==> none_hot(s, TA_ACC_START as int, 256)
    &&& !w.last ==> forall|c: int|
        0 <= c < 256 ==> #[trigger] w.nxt[TA_ACC_START + c] == if works && block * 4 <= c < block
            * 4 + 4 {
            if restarts == 1 {
                s[TA_DOT_START + (c - block * 4)] as int
            } else {
                enc(s[TA_ACC_START + c] + s[TA_DOT_START + (c - block * 4)])
            }
        } else {
            s[TA_ACC_START + c] as int
        }
}

/// The row keeps the running scalar of the reduction: zero on the first row
/// and where a stripe starts. A reducing row spells out the fold of its inputs
/// into the scalar and hands the result on, another row the scalar itself,
/// unless a stripe starts below.
#[verifier::opaque]
pub open spec fn row_keeps_scalar(w: Window, x: u32, in4: Seq<i32>) -> bool {
    let s = w.cur;
    let starts = s[TR_STRIPE_RESET as int];
    let reduces = s[TR_IS_ACTIVE as int];
    &&& reduces == 0 || reduces == 1
    &&& starts == 0 || starts == 1
    &&& s[TR_XSTEP as int] == x
    &&& w.first || starts == 1 ==> x == 0
    &&& if reduces == 1 {
        spells_fold(
            s,
            TR_IN_START as int,
            TR_IN_BITS_START as int,
            TR_XSTEP_BITS_START as int,
            TR_NEW as int,
            TR_NEW_BITS_START as int,
            TR_Q_START as int,
            x,
            in4,
        )
    } else {
        forall|j: int| TR_Q_START <= j < TR_Q_START + 32 ==> (#[trigger] s[j]) <= 2
    }
    &&& w.last || w.nxt[TR_STRIPE_RESET as int] == 1 || w.nxt[TR_XSTEP as int] == if reduces == 1 {
        s[TR_NEW as int]
    } else {
        x as u64
    }
}

/// The composite system accepts every honest row: one that is counted, packs
/// its bytes, multiplies its tiles, names its operands, updates its jackpot
/// slot, keeps register, tile and scalar, follows its schedule words, shows the
/// public digests and keys where it is marked, spells its message and, at the
/// end, shows the outcome. Parts that are idle ask nothing of the cells that
/// only their active rows use.
pub proof fn honest_row_meets_rules(
    w: Window,
    r: int,
    mat: Seq<i8>,
    noise: Seq<i8>,
    a: Seq<Seq<i8>>,
    b: Seq<Seq<i8>>,
    slot: int,
    v: u32,
    x: u32,
    xr: Seq<u32>,
    lane: int,
    folded: Seq<i32>,
    block: int,
    scalar: u32,
    reduced: Seq<i32>,
    pair: int,
)
    requires
        composite_window(w),
        row_is_counted(w, r),
        row_holds_inputs(w.cur, mat, noise),
        row_multiplies(w, a, b),
        row_packs_operands(w.cur, a, b),
        row_names_operands(w.cur),
        row_updates_jackpot(w, slot, v, x),
        row_is_scheduled(w.cur, lane, block),
        row_keeps_stripes(w, xr, lane, folded),
        row_keeps_tile(w, block),
        row_keeps_scalar(w, scalar, reduced),
        row_feeds_tile(w, a, b, block),
        row_shows_digests(w),
        row_spells_message(w.cur, pair),
        row_shows_outcome(w),
    ensures
        composite_rules(w),
{
    lemma_counted(w, r);
    lemma_inputs_held(w, mat, noise);
    lemma_multiplied(w, a, b);
    lemma_jackpot_updated(w, slot, v, x);
    lemma_stripes_kept(w, xr, lane, block, folded);
    lemma_tile_kept(w, lane, block);
    lemma_scalar_kept(w, scalar, reduced);
    lemma_linked(w, a, b, lane, block, pair);
    assert(composite_rules(w)) by {
        reveal(composite_rules);
    }
}

/// A row that holds its bytes meets the input rules.
proof fn lemma_inputs_held(w: Window, mat: Seq<i8>, noise: Seq<i8>)
    requires
        composite_window(w),
        row_holds_inputs(w.cur, mat, noise),
    ensures
        input_rules(w),
{
    reveal(row_holds_inputs);
    noised_words_are_matrix_plus_noise(w, mat, noise);
}

/// A row that updates its slot meets the jackpot rules.
proof fn lemma_jackpot_updated(w: Window, slot: int, v: u32, x: u32)
    requires
        row_updates_jackpot(w, slot, v, x),
    ensures
        jackpot_rules(JackpotOffsets::composite(), w),
{
    reveal(row_updates_jackpot);
    jackpot_window_meets_rules(JackpotOffsets::composite(), w, slot, v, x);
}

/// A row that keeps the tile meets the accumulator's rules.
proof fn lemma_tile_kept(w: Window, lane: int, block: int)
    requires
        composite_window(w),
        row_is_scheduled(w.cur, lane, block),
        row_keeps_tile(w, block),
    ensures
        tile_accum_rules(TileAccumOffsets::composite(), w),
{
    reveal(row_is_scheduled);
    reveal(row_keeps_tile);
    tile_window_meets_rules(TileAccumOffsets::composite(), w, block);
}

/// A multiplying row meets the accumulator's rules.
proof fn lemma_multiplied(w: Window, a: Seq<Seq<i8>>, b: Seq<Seq<i8>>)
    requires
        composite_window(w),
        row_multiplies(w, a, b),
    ensures
        matmul_rules(MatmulOffsets::composite(), w),
{
    reveal(row_multiplies);
    accumulator_follows_tiles(MatmulOffsets::composite(), w, a, b);
}

/// A row that keeps the scalar meets the reduction's rules.
proof fn lemma_scalar_kept(w: Window, x: u32, in4: Seq<i32>)
    requires
        row_keeps_scalar(w, x, in4),
    ensures
        tile_reduce_rules(TileReduceOffsets::composite(), w),
{
    reveal(row_keeps_scalar);
    let off = TileReduceOffsets::composite();
    if w.cur[TR_IS_ACTIVE as int] == 1 {
        lemma_spelled_fold(off.parity(), w.cur, x, in4);
        reduce_fold_meets_rules(off, w, x, in4);
    } else {
        reduce_hold_meets_rules(off, w, x as u64);
    }
}

/// A row of a plain matrix chain: counted, with bytes, tiles and identifiers
/// of its own, and everything else idle and zero.
pub open spec fn row_only_multiplies(
    w: Window,
    r: int,
    a: Seq<Seq<i8>>,
    b: Seq<Seq<i8>>,
) -> bool {
    let s = w.cur;
    &&& row_is_counted(w, r)
    &&& row_multiplies(w, a, b)
    &&& row_packs_operands(s, a, b)
    &&& row_names_operands(s)
    &&& row_shows_outcome(w)
    &&& none_hot(s, MAT_UNPACK_START as int, 64)
    &&& none_hot(s, NOISE_UNPACK_START as int, 64)
    &&& none_hot(s, NOISE_PACKED_PREP as int, 8)
    &&& none_hot(s, NOISED_PACKED_START as int, 16)
    &&& s[IS_HASH_JACKPOT as int] == 0
    &&& none_hot(s, BIT_REG_START as int, 32)
    &&& none_hot(s, JACKPOT_X_BITS_START as int, 32)
    &&& none_hot(s, JACKPOT_SLOT_SEL_START as int, 16)
    &&& s[IS_HASH_A as int] == 0
    &&& s[IS_HASH_B as int] == 0
    &&& s[IS_USE_JOB_KEY as int] == 0
    &&& s[IS_USE_COMMITMENT_HASH as int] == 0
    &&& s[IS_MSG_MAT as int] == 0
    &&& none_hot(s, MSG_PAIR_SEL_START as int, 8)
    &&& tile_chips_rest(s)
    &&& !w.last ==> tile_chips_rest(w.nxt)
}

/// The stripe register, the tile accumulator and the reduction rest: flags,
/// selectors, schedule words and what they keep are zero. What they read may
/// be anything.
pub open spec fn tile_chips_rest(s: Seq<u64>) -> bool {
    &&& s[SX_IS_ACTIVE as int] == 0
    &&& s[SX_SEG_RESET as int] == 0
    &&& s[SX_NEW_SEL as int] == 0
    &&& s[SX_CONTROL_PREP as int] == 0
    &&& none_hot(s, SX_LANE_SEL_START as int, 64)
    &&& none_hot(s, SX_XR_START as int, 64)
    &&& none_hot(s, SX_Q_START as int, 32)
    &&& s[TA_IS_ACTIVE as int] == 0
    &&& s[TA_IS_RESET as int] == 0
    &&& none_hot(s, TA_SB_SEL_START as int, 64)
    &&& none_hot(s, TA_ACC_START as int, 256)
    &&& s[TR_IS_ACTIVE as int] == 0
    &&& s[TR_STRIPE_RESET as int] == 0
    &&& s[TR_XSTEP as int] == 0
    &&& none_hot(s, TR_Q_START as int, 32)
    &&& s[RB_CONTROL_PREP as int] == 0
}

/// Cells of zeros are the bits of zero.
proof fn lemma_no_bits(s: Seq<u64>, at: int)
    requires
        none_hot(s, at, 32),
    ensures
        has_bits(s, at, 0),
{
    assert forall|j: int| at <= j < at + 32 implies (#[trigger] s[j]) == bit(0, j - at) by {
        lemma_zero_bit(j - at);
    }
}

/// A plain matrix chain is accepted on every row, whatever its tiles are and
/// whatever the idle chips' input columns hold: with the tile accumulator at
/// rest, its inner products are tied to nothing.
pub proof fn plain_chain_meets_rules(w: Window, r: int, a: Seq<Seq<i8>>, b: Seq<Seq<i8>>)
    requires
        composite_window(w),
        row_only_multiplies(w, r, a, b),
    ensures
        composite_rules(w),
{
    let s = w.cur;
    let zero = Seq::new(64, |k: int| 0i8);
    let xr = Seq::new(64, |k: int| 0u32);
    lemma_enc_small(0);
    assert(row_updates_jackpot(w, 0, 0, 0)) by {
        reveal(row_updates_jackpot);
        lemma_no_bits(s, BIT_REG_START as int);
        lemma_no_bits(s, JACKPOT_X_BITS_START as int);
    }
    assert(row_is_scheduled(s, 0, 0)) by {
        reveal(row_is_scheduled);
    }
    assert(row_keeps_stripes(w, xr, 0, Seq::empty())) by {
        reveal(row_keeps_stripes);
    }
    assert(row_keeps_tile(w, 0)) by {
        reveal(row_keeps_tile);
    }
    assert(row_keeps_scalar(w, 0, Seq::empty())) by {
        reveal(row_keeps_scalar);
    }
    assert(row_feeds_tile(w, a, b, 0)) by {
        reveal(row_feeds_tile);
    }
    assert(row_shows_digests(w)) by {
        reveal(row_shows_digests);
    }
    assert(row_spells_message(s, 0)) by {
        reveal(row_spells_message);
    }
    assert(row_holds_inputs(s, zero, zero)) by {
        reveal(row_holds_inputs);
        assert forall|k: int| 0 <= k < 64 implies s[MAT_UNPACK_START + k] == enc(
            #[trigger] zero[k] as int,
        ) && s[NOISE_UNPACK_START + k] == enc(zero[k] as int) by {}
    }
    honest_row_meets_rules(
        w,
        r,
        zero,
        zero,
        a,
        b,
        0,
        0,
        0,
        xr,
        0,
        Seq::empty(),
        0,
        0,
        Seq::empty(),
        0,
    );
}

/// A row whose tile accumulator rests meets the link to the operand tiles
/// whatever its inner products and its operands hold.
pub proof fn resting_tile_asks_no_products(s: Seq<u64>, k: int)
    requires
        s[TA_IS_ACTIVE as int] == 0,
    ensures
        dot_link(s, k),
{
    lemma_enc_small(0);
    let d = s[TA_DOT_START + k] - dot_cell(MatmulOffsets::composite(), s, k);
    assert(0 * d == 0);
}

/// A row whose reduction rests meets the link to the tile accumulator whatever
/// its inputs and the accumulator below hold.
pub proof fn resting_reduction_asks_no_inputs(w: Window, i: int)
    requires
        w.cur[TR_IS_ACTIVE as int] == 0,
    ensures
        reduce_link(w, i),
{
    lemma_enc_small(0);
    let d = w.cur[TR_IN_START + i] - crate::air::strided_dot(
        w.cur,
        TA_SB_SEL_START as int,
        w.nxt,
        TA_ACC_START + i,
        4,
        64,
    );
    assert(0 * d == 0);
}

/// The trace of a plain matrix chain is accepted on every window.
pub proof fn plain_chain_trace_is_accepted(
    m: RowMajorMatrix,
    fixed: Seq<u64>,
    public: Seq<u64>,
    left: Seq<Seq<Seq<i8>>>,
    right: Seq<Seq<Seq<i8>>>,
)
    requires
        m.wf(),
        m.width == TOTAL_TRACE_WIDTH,
        public.len() == 60,
        canonical(public),
        canonical(fixed),
        forall|r: int|
            0 <= r < m.spec_height() ==> row_only_multiplies(
                #[trigger] m.window(r, fixed, public),
                r,
                left[r],
                right[r],
            ),
    ensures
        forall|r: int|
            0 <= r < m.spec_height() ==> composite_rules(#[trigger] m.window(r, fixed, public)),
{
    assert forall|r: int| 0 <= r < m.spec_height() implies composite_rules(
        #[trigger] m.window(r, fixed, public),
    ) by {
        let w = m.window(r, fixed, public);
        lemma_row_canonical(m, r);
        lemma_row_canonical(
            m,
            if r + 1 < m.spec_height() {
                r + 1
            } else {
                0
            },
        );
        plain_chain_meets_rules(w, r, left[r], right[r]);
    }
}

/// A row holds, column by column, what a row of the program says: the control
/// word, the eight noise words, the tweak or route word, the packed operand
/// word, four identifiers of either operand, the row index and the two
/// schedule words.
pub open spec fn holds_program_row(s: Seq<u64>, program: Seq<u64>) -> bool {
    &&& program[0] == s[CONTROL_PREP as int]
    &&& forall|j: int| 0 <= j < 8 ==> #[trigger] program[1 + j] == s[NOISE_PACKED_PREP + j]
    &&& program[9] == s[CV_OR_TWEAK_PREP as int]
    &&& program[10] == s[AB_ID_PREP as int]
    &&& forall|j: int| 0 <= j < 4 ==> #[trigger] program[11 + j] == s[A_ID + j]
    &&& forall|j: int| 0 <= j < 4 ==> #[trigger] program[15 + j] == s[B_ID + j]
    &&& program[19] == s[STARK_ROW_IDX as int]
    &&& program[20] == s[SX_CONTROL_PREP as int]
    &&& program[21] == s[RB_CONTROL_PREP as int]
}

/// The program of a trace has a row for each row of the trace, and that row
/// holds the trace's program columns, each at its place.
pub proof fn program_holds_its_columns(program: RowMajorMatrix, m: RowMajorMatrix, r: int)
    requires
        m.wf(),
        m.width == TOTAL_TRACE_WIDTH,
        is_program_of(program, m),
    ensures
        program.width == 22,
        program.spec_height() == m.spec_height(),
        0 <= r < m.spec_height() ==> holds_program_row(m.row(r), program.row(r)),
{
    let h = m.spec_height() as int;
    let wide = TOTAL_TRACE_WIDTH as int;
    assert(m.values@.len() as int / wide == h);
    vstd::arithmetic::div_mod::lemma_div_by_multiple(h, 22);
    assert(program.spec_height() == h);
    if 0 <= r < h {
        assert(0 <= r * wide && r * wide + wide <= h * wide) by (nonlinear_arith)
            requires
                0 <= r < h,
                wide > 0,
        ;
        assert(0 <= r * 22 && r * 22 + 22 <= h * 22) by (nonlinear_arith)
            requires
                0 <= r < h,
        ;
        assert forall|k: int| 0 <= k < 22 implies #[trigger] program.row(r)[k] == m.row(r)[
        program_col(k)] by {
            assert(program.values@[r * PROGRAM_WIDTH + k] == m.values@[r * TOTAL_TRACE_WIDTH
                + program_col(k)]);
        }
    }
}

/// The pinned system takes a row's program columns from the fixed row, each
/// from its place, and from nowhere else.
pub proof fn pinned_row_holds_program_row(sx_bound: bool, w: Window)
    requires
        composite_window(w),
        w.fixed.len() == 22,
        pinned_rules(sx_bound, w),
    ensures
        holds_program_row(w.cur, w.fixed),
{
    assert forall|k: int| 0 <= k < 22 implies #[trigger] w.fixed[k] == w.cur[program_col(k)] by {
        assert(pin_at(w, k));
        lemma_feq_canonical(w.cur[program_col(k)] as int, w.fixed[k] as int);
    }
}

/// Under one program all traces follow one schedule: on every row the fold into
/// the stripe register, its lane, the work on the tile, its restart, its
/// sub-block, the reduction and its stripe starts are the same.
pub proof fn one_program_one_schedule(sx_bound: bool, other_bound: bool, v: Window, w: Window)
    requires
        composite_window(v),
        composite_window(w),
        composite_rules(v),
        composite_rules(w),
        pinned_rules(sx_bound, v),
        pinned_rules(other_bound, w),
        v.fixed == w.fixed,
        w.fixed.len() == 22,
    ensures
        v.cur[SX_IS_ACTIVE as int] == w.cur[SX_IS_ACTIVE as int],
        v.cur[TA_IS_ACTIVE as int] == w.cur[TA_IS_ACTIVE as int],
        v.cur[TA_IS_RESET as int] == w.cur[TA_IS_RESET as int],
        v.cur[TR_IS_ACTIVE as int] == w.cur[TR_IS_ACTIVE as int],
        v.cur[TR_STRIPE_RESET as int] == w.cur[TR_STRIPE_RESET as int],
        forall|j: int|
            SX_LANE_SEL_START <= j < SX_LANE_SEL_START + 64 ==> #[trigger] v.cur[j] == w.cur[j],
        forall|j: int|
            TA_SB_SEL_START <= j < TA_SB_SEL_START + 64 ==> #[trigger] v.cur[j] == w.cur[j],
        v.cur[CONTROL_PREP as int] == w.cur[CONTROL_PREP as int],
        v.cur[AB_ID_PREP as int] == w.cur[AB_ID_PREP as int],
{
    pinned_row_holds_program_row(sx_bound, v);
    pinned_row_holds_program_row(other_bound, w);
    sx_word_fixes_schedule(v, w);
    rb_word_fixes_schedule(v, w);
}

/// What a row does, its schedule words say: the first is one more than twice
/// the lane where the row folds into the stripe register and zero elsewhere;
/// the second adds up the work on the tile, its restart twice, the sub-block
/// four times, the reduction 256 times and the stripe start 512 times.
pub proof fn schedule_words_tell_the_row(w: Window)
    requires
        composite_window(w),
        composite_rules(w),
    ensures
        exists|lane: int, block: int| #[trigger] row_is_scheduled(w.cur, lane, block),
{
    lemma_sx_word(w);
    lemma_rb_word(w);
    let lane = hot_index(w.cur, SX_LANE_SEL_START as int, 64);
    let block = hot_index(w.cur, TA_SB_SEL_START as int, 64);
    assert(row_is_scheduled(w.cur, lane, block)) by {
        reveal(row_is_scheduled);
    }
}

/// The pinned system accepts every honest row that runs the program: keyed
/// rows use the job key, a jackpot message starts a hash and is the folded
/// state, the last jackpot state is the folded one, and a folded scalar is the
/// selected lane (where the register is in use) and what the reduction above
/// put out.
pub proof fn honest_row_meets_pinned_rules(sx_bound: bool, w: Window, stripe: int)
    requires
        composite_window(w),
        w.fixed.len() == 22,
        holds_program_row(w.cur, w.fixed),
        w.cur[IS_JOB_KEYED as int] == 0 || cells_are_public(
            w,
            CV_IN_START as int,
            PI_JOB_KEY_OFFSET as int,
        ),
        w.last ==> forall|i: int|
            0 <= i < 16 ==> #[trigger] w.cur[JACKPOT_MSG_START + i] == w.cur[FOLD_STATE_START + i],
        w.cur[IS_MSG_JACKPOT as int] == 0 || w.cur[IS_NEW_BLAKE as int] == 1 && forall|i: int|
            0 <= i < 16 ==> #[trigger] w.cur[BLAKE3_MSG_START + i] == w.cur[FOLD_STATE_START + i],
        sx_bound ==> none_hot(w.cur, FOLD_STRIPE_SEL_START as int, 64) || 0 <= stripe < 64
            && one_hot(w.cur, FOLD_STRIPE_SEL_START as int, 64, stripe)
            && w.cur[FOLD_XSTEP as int] == w.cur[SX_XR_START + stripe],
        w.last || w.cur[TR_IS_ACTIVE as int] == 0 || w.nxt[FOLD_IS_FOLD as int] == 0
            || w.nxt[FOLD_XSTEP as int] == w.cur[TR_NEW as int],
    ensures
        pinned_rules(sx_bound, w),
{
    let s = w.cur;
    lemma_enc_small(0);
    assert forall|k: int| 0 <= k < 22 implies #[trigger] pin_at(w, k) by {
        if 1 <= k < 9 {
            assert(w.fixed[1 + (k - 1)] == s[NOISE_PACKED_PREP + (k - 1)]);
        } else if 11 <= k < 15 {
            assert(w.fixed[11 + (k - 11)] == s[A_ID + (k - 11)]);
        } else if 15 <= k < 19 {
            assert(w.fixed[15 + (k - 15)] == s[B_ID + (k - 15)]);
        }
        assert(w.fixed[k] == s[program_col(k)]);
    }
    lemma_public_link(w, IS_JOB_KEYED as int, CV_IN_START as int, PI_JOB_KEY_OFFSET as int);
    if w.last {
        assert forall|i: int| 0 <= i < 16 implies #[trigger] same_value_at(
            w,
            JACKPOT_MSG_START as int,
            FOLD_STATE_START as int,
            i,
        ) by {
            assert(s[JACKPOT_MSG_START + i] == s[FOLD_STATE_START + i]);
        }
    }
    let starts = 1 - s[IS_NEW_BLAKE as int];
    let hashes = s[IS_MSG_JACKPOT as int] as int;
    assert(hashes * starts == 0) by (nonlinear_arith)
        requires
            hashes == 0 || starts == 0,
    ;
    assert forall|i: int| 0 <= i < 16 implies #[trigger] column_link_at(
        w,
        IS_MSG_JACKPOT as int,
        BLAKE3_MSG_START as int,
        FOLD_STATE_START as int,
        i,
    ) by {
        let d = s[BLAKE3_MSG_START + i] - s[FOLD_STATE_START + i];
        if hashes != 0 {
            assert(s[BLAKE3_MSG_START + i] == s[FOLD_STATE_START + i]);
        }
        assert(hashes * d == 0) by (nonlinear_arith)
            requires
                hashes == 0 || d == 0,
        ;
    }
    if sx_bound {
        if none_hot(s, FOLD_STRIPE_SEL_START as int, 64) {
            lemma_stripe_bind(s, 64, 64);
        } else {
            lemma_stripe_bind(s, 64, stripe);
        }
    }
    if !w.last {
        let x = s[TR_IS_ACTIVE as int] as int;
        let y = w.nxt[FOLD_IS_FOLD as int] as int;
        let d = w.nxt[FOLD_XSTEP as int] - s[TR_NEW as int];
        assert(x * y * d == 0) by (nonlinear_arith)
            requires
                x == 0 || y == 0 || d == 0,
        ;
        assert(fold_link(w));
    }
}

/// Without the stripe register in use, the folded scalar is not tied to it:
/// such rows are accepted whatever the stripe selection holds.
pub proof fn unbound_rows_ignore_stripes(w: Window)
    requires
        pinned_rules(true, w),
    ensures
        pinned_rules(false, w),
{
}

/// What an accepted row of the whole circuit computes, by the names of its
/// columns: the index of the row below is one more; the accumulator below
/// follows the operand tiles.
pub proof fn accepted_row_multiplies(w: Window, a: Seq<Seq<i8>>, b: Seq<Seq<i8>>, k: int)
    requires
        composite_window(w),
        composite_rules(w),
        tile_cells(w.cur, A_NOISED_UNPACK_START as int, a),
        tile_cells(w.cur, B_NOISED_UNPACK_START as int, b),
        !w.last,
        0 <= k < 4,
    ensures
        w.nxt[STARK_ROW_IDX as int] == enc(w.cur[STARK_ROW_IDX as int] + 1),
        w.first ==> w.cur[STARK_ROW_IDX as int] == 0,
        ({
            let reset = w.cur[IS_RESET_CUMSUM as int];
            let update = w.cur[IS_UPDATE_CUMSUM as int];
            let product = product_sum(a[k / 2], b[k % 2]);
            let below = w.nxt[CUMSUM_TILE_START + k];
            &&& reset == 0 || reset == 1
            &&& update == 0 || update == 1
            &&& reset == 1 && update == 0 ==> below == enc(product)
            &&& reset == 0 && update == 1 ==> below == enc(w.cur[CUMSUM_TILE_START + k] + product)
            &&& reset == 0 && update == 0 ==> below == w.cur[CUMSUM_TILE_START + k]
        }),
        w.cur[TA_IS_ACTIVE as int] == 1 ==> w.cur[TA_DOT_START + k] == enc(
            product_sum(a[k / 2], b[k % 2]),
        ),
{
    assert(matmul_rules(MatmulOffsets::composite(), w) && stark_row_rules(w)) by {
        reveal(composite_rules);
    }
    let off = MatmulOffsets::composite();
    accumulator_follows_tiles(off, w, a, b);
    assert(w.nxt[off.cumsum_start + k] == w.nxt[CUMSUM_TILE_START + k]);
    let i = w.cur[STARK_ROW_IDX as int] as int;
    let j = w.nxt[STARK_ROW_IDX as int] as int;
    lemma_enc_feq(i + 1);
    lemma_zero_add(j - (i + 1), (i + 1) - enc(i + 1));
    lemma_feq_canonical(j, enc(i + 1));
    if w.first {
        lemma_feq_canonical(i, 0);
    }
    if w.cur[TA_IS_ACTIVE as int] == 1 {
        let product = product_sum(a[k / 2], b[k % 2]);
        let cells = dot_cell(MatmulOffsets::composite(), w.cur, k);
        held_dots_are_tile_products(w, k);
        lemma_dot_of_bytes(MatmulOffsets::composite(), w.cur, a, b, k);
        lemma_enc_feq(cells);
        lemma_enc_feq(product);
        lemma_zero_add(enc(cells) - cells, cells - product);
        lemma_zero_add((enc(cells) - cells) + (cells - product), product - enc(product));
        lemma_feq_canonical(enc(cells), enc(product));
    }
}

/// The stripe register of an accepted trace: on the first row and on rows that
/// reset it is zero; a folding row puts the exclusive or of its lane and the
/// accumulator below into the lane; every other lane, and every lane below a
/// row that does not fold, is handed on unless the row below resets.
pub proof fn accepted_row_folds_stripes(w: Window, lane: int, k: int)
    requires
        composite_window(w),
        composite_rules(w),
        !w.last,
        0 <= k < 64,
        0 <= lane < 64,
        w.cur[SX_IS_ACTIVE as int] == 1 ==> one_hot(w.cur, SX_LANE_SEL_START as int, 64, lane),
    ensures
        w.cur[SX_IS_ACTIVE as int] == 0 || w.cur[SX_IS_ACTIVE as int] == 1,
        w.first || w.cur[SX_SEG_RESET as int] == 1 ==> w.cur[SX_XR_START + k] == 0,
        w.cur[SX_IS_ACTIVE as int] == 1 ==> w.cur[SX_XR_START + lane] <= u32::MAX && w.nxt[
        SX_XR_START + lane] == (w.cur[SX_XR_START + lane] as u32) ^ (decode_i32(
            w.nxt[CUMSUM_TILE_START as int],
        ) as u32) ^ (decode_i32(w.nxt[CUMSUM_TILE_START + 1]) as u32) ^ (decode_i32(
            w.nxt[CUMSUM_TILE_START + 2],
        ) as u32) ^ (decode_i32(w.nxt[CUMSUM_TILE_START + 3]) as u32),
        w.nxt[SX_SEG_RESET as int] == 0 && (w.cur[SX_IS_ACTIVE as int] == 0 || k != lane) ==> w.nxt[
        SX_XR_START + k] == w.cur[SX_XR_START + k],
{
    let off = StripeXorOffsets::composite();
    assert(stripe_xor_rules(off, true, w)) by {
        reveal(composite_rules);
    }
    transition_folds_selected_lane(off, w);
    lemma_reset_row_zero(off, w);
    if w.cur[SX_IS_ACTIVE as int] == 1 {
        let picked = hot_index(w.cur, SX_LANE_SEL_START as int, 64);
        assert(w.cur[SX_LANE_SEL_START + picked] == 1);
        assert(picked == lane);
        folded_cells_are_accumulator(w, 0);
        folded_cells_are_accumulator(w, 1);
        folded_cells_are_accumulator(w, 2);
        folded_cells_are_accumulator(w, 3);
        lemma_xor_fold_four(w.cur[SX_XR_START + lane] as u32, inputs(off.parity(), w.cur));
    }
}

/// The tile accumulator of an accepted trace starts at zero; the selected
/// sub-block takes its inner products alone where it restarts and on top
/// otherwise; every other cell is handed on; and only rows at work restart.
pub proof fn accepted_row_keeps_tile(w: Window, block: int, c: int)
    requires
        composite_window(w),
        composite_rules(w),
        !w.last,
        0 <= c < 256,
        0 <= block < 64,
        w.cur[TA_IS_ACTIVE as int] == 1 ==> one_hot(w.cur, TA_SB_SEL_START as int, 64, block),
    ensures
        w.first ==> w.cur[TA_ACC_START + c] == 0,
        w.cur[TA_IS_RESET as int] == 1 ==> w.cur[TA_IS_ACTIVE as int] == 1,
        ({
            let at = TA_ACC_START + c;
            let dot = w.cur[TA_DOT_START + c % 4];
            let chosen = w.cur[TA_IS_ACTIVE as int] == 1 && c / 4 == block;
            &&& chosen && w.cur[TA_IS_RESET as int] == 1 ==> w.nxt[at] == dot
            &&& chosen && w.cur[TA_IS_RESET as int] == 0 ==> w.nxt[at] == enc(w.cur[at] + dot)
            &&& !chosen ==> w.nxt[at] == w.cur[at]
        }),
{
    let off = TileAccumOffsets::composite();
    assert(tile_accum_rules(off, w)) by {
        reveal(composite_rules);
    }
    transition_updates_selected_block(off, w, c);
    if w.cur[TA_IS_RESET as int] == 1 {
        restart_needs_activity(off, w);
    }
    if w.cur[TA_IS_ACTIVE as int] == 1 {
        lemma_rb_word(w);
        let picked = hot_index(w.cur, TA_SB_SEL_START as int, 64);
        assert(w.cur[TA_SB_SEL_START + picked] == 1);
        assert(picked == block);
    }
    if w.first {
        assert(is_zero(w.cur[TA_ACC_START + c] as int));
        lemma_feq_canonical(w.cur[TA_ACC_START + c] as int, 0);
    }
}

/// The running scalar of an accepted trace is zero on the first row and where
/// a stripe starts; a reducing row hands on its exclusive or with its four
/// inputs, another row the scalar itself, unless a stripe starts below.
pub proof fn accepted_row_reduces(w: Window)
    requires
        composite_window(w),
        composite_rules(w),
        !w.last,
    ensures
        ({
            let x = w.cur[TR_XSTEP as int];
            let below = w.nxt[TR_XSTEP as int];
            let goes_on = w.nxt[TR_STRIPE_RESET as int] == 0;
            let reduces = w.cur[TR_IS_ACTIVE as int];
            let y = (x as u32) ^ (decode_i32(w.cur[TR_IN_START as int]) as u32) ^ (decode_i32(
                w.cur[TR_IN_START + 1],
            ) as u32) ^ (decode_i32(w.cur[TR_IN_START + 2]) as u32) ^ (decode_i32(
                w.cur[TR_IN_START + 3],
            ) as u32);
            &&& w.first || w.cur[TR_STRIPE_RESET as int] == 1 ==> x == 0
            &&& reduces == 0 || reduces == 1
            &&& reduces == 1 ==> x <= u32::MAX && w.cur[TR_NEW as int] == y
            &&& reduces == 1 && goes_on ==> below == y
            &&& reduces == 0 && goes_on ==> below == x
        }),
{
    let off = TileReduceOffsets::composite();
    assert(tile_reduce_rules(off, w)) by {
        reveal(composite_rules);
    }
    lemma_fresh_row(off, w);
    lemma_rb_word(w);
    if w.cur[TR_IS_ACTIVE as int] == 1 {
        active_row_folds_inputs(off, w);
        lemma_xor_fold_four(w.cur[TR_XSTEP as int] as u32, inputs(off.parity(), w.cur));
    }
    if w.nxt[TR_STRIPE_RESET as int] == 0 {
        transition_folds_inputs(off, w);
    }
}

/// A row of an accepted trace that hashes the jackpot updates one slot: the
/// row below holds it rotated left by thirteen and folded with the row's word,
/// the other slots unchanged.
pub proof fn accepted_row_updates_jackpot(w: Window, slot: int, i: int, x: u32)
    requires
        composite_window(w),
        composite_rules(w),
        !w.last,
        w.cur[IS_HASH_JACKPOT as int] == 1,
        0 <= slot < 16,
        0 <= i < 16,
        one_hot(w.cur, JACKPOT_SLOT_SEL_START as int, 16, slot),
        has_bits(w.cur, JACKPOT_X_BITS_START as int, x),
    ensures
        w.cur[JACKPOT_MSG_START + slot] <= u32::MAX,
        has_bits(w.cur, BIT_REG_START as int, w.cur[JACKPOT_MSG_START + slot] as u32),
        ({
            let v = w.cur[JACKPOT_MSG_START + slot] as u32;
            w.nxt[JACKPOT_MSG_START + i] == if i == slot {
                (((v << 13) | (v >> 19)) ^ x) as u64
            } else {
                w.cur[JACKPOT_MSG_START + i]
            }
        }),
{
    let off = JackpotOffsets::composite();
    assert(jackpot_rules(off, w)) by {
        reveal(composite_rules);
    }
    active_transition_updates_slot(off, w);
    active_row_spells_slot(off, w);
    let picked = hot_index(w.cur, JACKPOT_SLOT_SEL_START as int, 16);
    assert(w.cur[JACKPOT_SLOT_SEL_START + picked] == 1);
    assert(picked == slot);
    lemma_bits_value(w.cur, JACKPOT_X_BITS_START as int, x);
}

/// An accepted row holds the words that its bytes spell: noised words, operand
/// words where it reads operands, message words where a matrix message starts;
/// and there, and only there, one message pair is selected.
pub proof fn accepted_row_packs_bytes(
    w: Window,
    mat: Seq<i8>,
    noise: Seq<i8>,
    a: Seq<Seq<i8>>,
    b: Seq<Seq<i8>>,
)
    requires
        composite_window(w),
        composite_rules(w),
        forall|k: int| 0 <= k < 64 ==> w.cur[MAT_UNPACK_START + k] == enc(#[trigger] mat[k] as int),
        forall|k: int|
            0 <= k < 64 ==> w.cur[NOISE_UNPACK_START + k] == enc(#[trigger] noise[k] as int),
        tile_cells(w.cur, A_NOISED_UNPACK_START as int, a),
        tile_cells(w.cur, B_NOISED_UNPACK_START as int, b),
        w.cur[IS_MSG_MAT as int] <= 1,
        w.cur[IS_NEW_BLAKE as int] <= 1,
    ensures
        row_holds_inputs(w.cur, mat, noise),
        row_packs_operands(w.cur, a, b),
        exists|pair: int| #[trigger] row_spells_message(w.cur, pair),
{
    let s = w.cur;
    assert(input_rules(w) && matmul_rules(MatmulOffsets::composite(), w)) by {
        reveal(composite_rules);
    }
    noised_words_are_matrix_plus_noise(w, mat, noise);
    assert(row_holds_inputs(s, mat, noise)) by {
        reveal(row_holds_inputs);
    }
    lemma_glue(w);
    accumulator_follows_tiles(MatmulOffsets::composite(), w, a, b);
    let gate = s[IS_RESET_CUMSUM as int] + s[IS_UPDATE_CUMSUM as int];
    assert(row_packs_operands(s, a, b)) by {
        reveal(row_packs_operands);
        if gate != 0 {
            lemma_operands_packed(w, gate, A_NOISED_START as int, A_NOISED_UNPACK_START as int, a);
            lemma_operands_packed(w, gate, B_NOISED_START as int, B_NOISED_UNPACK_START as int, b);
        }
    }
    let start = MSG_PAIR_SEL_START as int;
    let both = s[IS_MSG_MAT as int] * s[IS_NEW_BLAKE as int];
    assert(both == if s[IS_MSG_MAT as int] == 1 && s[IS_NEW_BLAKE as int] == 1 {
        1int
    } else {
        0
    }) by (nonlinear_arith)
        requires
            both == s[IS_MSG_MAT as int] * s[IS_NEW_BLAKE as int],
            s[IS_MSG_MAT as int] <= 1,
            s[IS_NEW_BLAKE as int] <= 1,
    ;
    selector_follows_flag(s, both, start, 8);
    let pair = hot_index(s, start, 8);
    assert(row_spells_message(s, pair)) by {
        reveal(row_spells_message);
        if both == 1 {
            assert forall|i: int| 0 <= i < 16 implies #[trigger] s[BLAKE3_MSG_START + i] == enc(
                s[UINT8_DATA_START + 4 * i] + 256 * s[UINT8_DATA_START + 4 * i + 1] + 65536
                    * s[UINT8_DATA_START + 4 * i + 2] + 16777216 * s[UINT8_DATA_START + 4 * i + 3],
            ) by {
                message_words_hold_bytes(w, i);
                lemma_four_digits(s, UINT8_DATA_START + i * 4);
            }
        }
    }
}

/// Packed operand words hold the bytes of their tile.
proof fn lemma_operands_packed(
    w: Window,
    gate: int,
    packed: int,
    bytes: int,
    tile: Seq<Seq<i8>>,
)
    requires
        w.canonical(),
        0 <= packed,
        packed + 8 <= w.cur.len(),
        gate == 1 || gate == 2,
        tile_cells(w.cur, bytes, tile),
        pack_link(gate, w.cur, packed, bytes, 8),
    ensures
        forall|i: int|
            0 <= i < 8 ==> #[trigger] w.cur[packed + i] == enc(tile_word(tile, i)),
{
    let s = w.cur;
    assert forall|i: int| 0 <= i < 8 implies #[trigger] s[packed + i] == enc(
        tile_word(tile, i),
    ) by {
        let row = tile[i / 4];
        let at = (i % 4) * 4;
        let value = crate::air::polyval(s, bytes + i * 4, 4, 256);
        assert forall|k: int| at <= k < at + 4 implies s[bytes + i * 4 + (k - at)] == enc(
            #[trigger] row[k] as int,
        ) by {
            assert(s[bytes + (i / 4) * 16 + k] == enc(tile[i / 4][k] as int));
        }
        lemma_polyval_bytes(s, bytes + i * 4, row, at, 4, 256);
        lemma_four_bytes(row, at);
        let word = tile_word(tile, i);
        let d = s[packed + i] - value;
        assert(pack_link_at(gate, s, packed, bytes, i));
        assert(is_zero(d)) by {
            if gate == 1 {
                assert(1 * d == d);
            } else {
                crate::prime::no_zero_divisors(2, d);
                assert(!is_zero(2)) by {
                    lemma_enc_small(2);
                }
            }
        }
        lemma_enc_feq(word);
        lemma_zero_add(d, value - word);
        lemma_zero_add(d + (value - word), word - enc(word));
        lemma_feq_canonical(s[packed + i] as int, enc(word));
    }
}

/// An accepted row whose limbs are in range names its operands by them.
pub proof fn accepted_row_names_operands(w: Window)
    requires
        composite_window(w),
        composite_rules(w),
        limbs_in_range(w.cur),
    ensures
        row_names_operands(w.cur),
{
    lemma_glue(w);
    let s = w.cur;
    let at = AB_ID_LIMBS_START as int;
    assert(s[at] < 8192 && s[at + 1] < 8192 && s[at + 2] < 8192 && s[at + 3] < 8192);
    let a_id = s[at] + 8192 * s[at + 1];
    let b_id = s[at + 2] + 8192 * s[at + 3];
    lemma_feq_canonical(s[A_ID as int] as int, a_id);
    lemma_feq_canonical(s[B_ID as int] as int, b_id);
    lemma_feq_canonical(s[AB_ID_PREP as int] as int, a_id + 0x400_0000 * b_id);
    assert(row_names_operands(s)) by {
        reveal(row_names_operands);
    }
}

/// An accepted row that reduces while no sub-block is selected reduces zeros.
pub proof fn reduction_without_block_takes_zeros(w: Window, i: int)
    requires
        composite_window(w),
        composite_rules(w),
        !w.last,
        w.cur[TR_IS_ACTIVE as int] == 1,
        w.cur[TA_IS_ACTIVE as int] == 0,
        0 <= i < 4,
    ensures
        w.cur[TR_IN_START + i] == 0,
{
    lemma_glue(w);
    lemma_rb_word(w);
    lemma_none_hot_strided(
        w.cur,
        TA_SB_SEL_START as int,
        w.nxt,
        TA_ACC_START + i,
        4,
        64,
    );
    assert(reduce_link(w, i));
    let a = w.cur[TR_IN_START + i] as int;
    assert(1 * (a - 0) == a);
    lemma_feq_canonical(a, 0);
}

} // verus!
