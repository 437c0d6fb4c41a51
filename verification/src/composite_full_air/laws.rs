//! What the composite constraints say of a trace.

use vstd::prelude::*;

use crate::air::{all_bool, index_sum, is_bool, polyval, strided_dot, sum_cells, Window};
use crate::bits::xor_fold;
use crate::chips::parity::inputs;
use crate::chips::selector::{hot_index, none_hot, one_hot, selector_follows_flag};
use crate::chips::stripe_xor::{cumsum_link, lane_rules, StripeXorOffsets};
use crate::chips::tile_reduce::laws::active_row_folds_inputs;
use crate::chips::tile_reduce::{tile_reduce_rules, TileReduceOffsets};
use crate::composite_full_air::links::{
    column_link_at, pack_link_at, public_link_at, public_value_at, same_value_at,
};
use crate::composite_full_air::{
    composite_rules, digest_rules, dot_link, fold_link, glue_rules, is_program_of, message_rules,
    operand_pack_rules, operand_rules, outcome_rules, pin_at, pinned_rules, program_col,
    reduce_link, schedule_rules, stripe_bind, PROGRAM_WIDTH,
};
use crate::composite_layout::{
    AB_ID_LIMBS_START, AB_ID_PREP, A_ID, A_NOISED_START, A_NOISED_UNPACK_START, BLAKE3_MSG_START,
    B_ID, B_NOISED_START, B_NOISED_UNPACK_START, CUMSUM_TILE_START, CV_IN_START, CV_OUT_START,
    FOLD_IS_FOLD, FOLD_STATE_START, FOLD_STRIPE_SEL_START, FOLD_XSTEP, IS_HASH_A, IS_HASH_B,
    IS_HASH_JACKPOT, IS_JOB_KEYED, IS_MSG_JACKPOT, IS_MSG_MAT, IS_NEW_BLAKE, IS_RESET_CUMSUM,
    IS_UPDATE_CUMSUM, IS_USE_COMMITMENT_HASH, IS_USE_JOB_KEY, JACKPOT_MSG_START, RB_CONTROL_PREP,
    SX_CONTROL_PREP, SX_IN_START, SX_IS_ACTIVE, SX_LANE_SEL_START, SX_XR_START, TA_ACC_START,
    TA_DOT_START, TA_IS_ACTIVE, TA_IS_RESET, TA_SB_SEL_START, TOTAL_TRACE_WIDTH, TR_IN_START,
    TR_IS_ACTIVE, TR_NEW, TR_STRIPE_RESET, TR_XSTEP, UINT8_DATA_START,
};
use crate::composite_public::{
    PI_COMMITMENT_HASH_OFFSET, PI_CUMSUM_OFFSET, PI_HASH_A_OFFSET, PI_HASH_B_OFFSET,
    PI_HASH_JACKPOT_OFFSET, PI_JACKPOT_OFFSET, PI_JOB_KEY_OFFSET,
};
use crate::field::{enc, is_zero, lemma_enc_feq, lemma_feq_canonical, lemma_zero_add};
use crate::matrix::{lemma_row_canonical, RowMajorMatrix};
use crate::prime::bool_check_is_boolean;

verus! {

/// A window of the composite trace: full rows, all public values, canonical
/// cells.
pub open spec fn composite_window(w: Window) -> bool {
    &&& w.canonical()
    &&& w.cur.len() == TOTAL_TRACE_WIDTH
    &&& w.nxt.len() == TOTAL_TRACE_WIDTH
    &&& w.public.len() == 60
}

/// The constraints between the chips.
pub proof fn lemma_glue(w: Window)
    requires
        composite_rules(w),
    ensures
        schedule_rules(w.cur),
        digest_rules(w),
        outcome_rules(w),
        operand_rules(w.cur),
        operand_pack_rules(w.cur),
        message_rules(w.cur),
        forall|k: int| 0 <= k < 4 ==> #[trigger] dot_link(w.cur, k),
        !w.last ==> forall|i: int| 0 <= i < 4 ==> #[trigger] reduce_link(w, i),
{
    reveal(composite_rules);
    reveal(glue_rules);
}

/// The flags and selectors that the schedule words speak of.
proof fn lemma_selectors(w: Window)
    requires
        composite_rules(w),
    ensures
        lane_rules(StripeXorOffsets::composite(), w),
        is_bool(w.cur[TA_IS_ACTIVE as int] as int),
        is_bool(w.cur[TA_IS_RESET as int] as int),
        all_bool(w.cur, TA_SB_SEL_START as int, 64),
        is_zero(sum_cells(w.cur, TA_SB_SEL_START as int, 64) - w.cur[TA_IS_ACTIVE as int]),
        is_bool(w.cur[TR_IS_ACTIVE as int] as int),
        is_bool(w.cur[TR_STRIPE_RESET as int] as int),
{
    reveal(composite_rules);
}

/// A trace that meets the pinned rules under a fixed trace runs exactly the
/// program that the fixed trace holds.
pub proof fn pinned_trace_runs_program(
    sx_bound: bool,
    m: RowMajorMatrix,
    program: RowMajorMatrix,
    public: Seq<u64>,
)
    requires
        m.wf(),
        m.width == TOTAL_TRACE_WIDTH,
        program.wf(),
        program.width == PROGRAM_WIDTH,
        program.spec_height() == m.spec_height(),
        forall|r: int|
            0 <= r < m.spec_height() ==> pinned_rules(
                sx_bound,
                #[trigger] m.window(r, program.row(r), public),
            ),
    ensures
        is_program_of(program, m),
{
    let w = TOTAL_TRACE_WIDTH as int;
    let h = m.spec_height() as int;
    assert(m.values@.len() as int / w == h);
    assert forall|r: int, k: int|
        0 <= r < h && 0 <= k < PROGRAM_WIDTH implies #[trigger] program.values@[r * PROGRAM_WIDTH
        + k] == m.values@[r * TOTAL_TRACE_WIDTH + program_col(k)] by {
        let win = m.window(r, program.row(r), public);
        assert(pinned_rules(sx_bound, win));
        assert(pin_at(win, k));
        lemma_row_canonical(m, r);
        lemma_row_canonical(program, r);
        let c = program_col(k);
        assert(0 <= c < TOTAL_TRACE_WIDTH);
        lemma_feq_canonical(win.cur[c] as int, win.fixed[k] as int);
        assert(0 <= r * w && r * w + w <= h * w) by (nonlinear_arith)
            requires
                0 <= r < h,
                w > 0,
        ;
        assert(0 <= r * 22 && r * 22 + 22 <= h * 22) by (nonlinear_arith)
            requires
                0 <= r < h,
        ;
        assert(m.row(r)[c] == m.values@[r * w + c]);
        assert(program.row(r)[k] == program.values@[r * PROGRAM_WIDTH + k]);
    }
}

/// The last row's accumulator and jackpot state are the public ones.
pub proof fn outcome_is_public(w: Window)
    requires
        composite_window(w),
        composite_rules(w),
        w.last,
    ensures
        forall|i: int|
            0 <= i < 4 ==> #[trigger] w.cur[CUMSUM_TILE_START + i] == w.public[PI_CUMSUM_OFFSET
                + i],
        forall|i: int|
            0 <= i < 16 ==> #[trigger] w.cur[JACKPOT_MSG_START + i] == w.public[PI_JACKPOT_OFFSET
                + i],
{
    lemma_glue(w);
    lemma_outcome(w);
}

/// The outcome rules alone give the outcome.
proof fn lemma_outcome(w: Window)
    requires
        composite_window(w),
        outcome_rules(w),
        w.last,
    ensures
        forall|i: int|
            0 <= i < 4 ==> #[trigger] w.cur[CUMSUM_TILE_START + i] == w.public[PI_CUMSUM_OFFSET
                + i],
        forall|i: int|
            0 <= i < 16 ==> #[trigger] w.cur[JACKPOT_MSG_START + i] == w.public[PI_JACKPOT_OFFSET
                + i],
{
    assert forall|i: int| 0 <= i < 4 implies #[trigger] w.cur[CUMSUM_TILE_START + i]
        == w.public[PI_CUMSUM_OFFSET + i] by {
        assert(public_value_at(w, CUMSUM_TILE_START as int, PI_CUMSUM_OFFSET as int, i));
        lemma_feq_canonical(
            w.cur[CUMSUM_TILE_START + i] as int,
            w.public[PI_CUMSUM_OFFSET + i] as int,
        );
    }
    assert forall|i: int| 0 <= i < 16 implies #[trigger] w.cur[JACKPOT_MSG_START + i]
        == w.public[PI_JACKPOT_OFFSET + i] by {
        assert(public_value_at(w, JACKPOT_MSG_START as int, PI_JACKPOT_OFFSET as int, i));
        lemma_feq_canonical(
            w.cur[JACKPOT_MSG_START + i] as int,
            w.public[PI_JACKPOT_OFFSET + i] as int,
        );
    }
}

/// The last row's folded state is the public jackpot state.
pub proof fn public_jackpot_is_folded_state(sx_bound: bool, w: Window, i: int)
    requires
        composite_window(w),
        composite_rules(w),
        pinned_rules(sx_bound, w),
        w.last,
        0 <= i < 16,
    ensures
        w.cur[FOLD_STATE_START + i] == w.public[PI_JACKPOT_OFFSET + i],
{
    outcome_is_public(w);
    assert(same_value_at(w, JACKPOT_MSG_START as int, FOLD_STATE_START as int, i));
    lemma_feq_canonical(
        w.cur[JACKPOT_MSG_START + i] as int,
        w.cur[FOLD_STATE_START + i] as int,
    );
    assert(w.cur[JACKPOT_MSG_START + i] == w.public[PI_JACKPOT_OFFSET + i]);
}

/// On the row that closes the jackpot digest, the digest is the public one and
/// its key is the public commitment.
pub proof fn jackpot_digest_is_public(w: Window, i: int)
    requires
        composite_window(w),
        composite_rules(w),
        w.cur[IS_HASH_JACKPOT as int] == 1,
        0 <= i < 8,
    ensures
        w.cur[CV_OUT_START + i] == w.public[PI_HASH_JACKPOT_OFFSET + i],
        w.cur[CV_IN_START + i] == w.public[PI_COMMITMENT_HASH_OFFSET + i],
{
    let gate = IS_HASH_JACKPOT as int;
    lemma_glue(w);
    assert(public_link_at(w, gate, CV_OUT_START as int, PI_HASH_JACKPOT_OFFSET as int, i));
    assert(public_link_at(w, gate, CV_IN_START as int, PI_COMMITMENT_HASH_OFFSET as int, i));
    let a = w.cur[CV_OUT_START + i] as int;
    let b = w.public[PI_HASH_JACKPOT_OFFSET + i] as int;
    assert(1 * (a - b) == a - b);
    lemma_feq_canonical(a, b);
    let c = w.cur[CV_IN_START + i] as int;
    let d = w.public[PI_COMMITMENT_HASH_OFFSET + i] as int;
    assert(1 * (c - d) == c - d);
    lemma_feq_canonical(c, d);
}

/// Where a selector is set, a linked cell holds the public value.
proof fn lemma_linked_value(w: Window, selector: int, column: int, public: int, i: int)
    requires
        w.canonical(),
        0 <= column + i < w.cur.len(),
        0 <= public + i < w.public.len(),
        w.cur[selector] == 1,
        public_link_at(w, selector, column, public, i),
    ensures
        w.cur[column + i] == w.public[public + i],
{
    let a = w.cur[column + i] as int;
    let b = w.public[public + i] as int;
    assert(1 * (a - b) == a - b);
    lemma_feq_canonical(a, b);
}

/// The digests of the matrices and the keys are the public ones on the rows
/// that their selectors mark.
pub proof fn digests_and_keys_are_public(w: Window, i: int)
    requires
        composite_window(w),
        composite_rules(w),
        0 <= i < 8,
    ensures
        w.cur[IS_HASH_A as int] == 1 ==> w.cur[CV_OUT_START + i] == w.public[PI_HASH_A_OFFSET + i],
        w.cur[IS_HASH_B as int] == 1 ==> w.cur[CV_OUT_START + i] == w.public[PI_HASH_B_OFFSET + i],
        w.cur[IS_USE_JOB_KEY as int] == 1 ==> w.cur[CV_IN_START + i] == w.public[PI_JOB_KEY_OFFSET
            + i],
        w.cur[IS_USE_COMMITMENT_HASH as int] == 1 ==> w.cur[CV_IN_START + i]
            == w.public[PI_COMMITMENT_HASH_OFFSET + i],
{
    let out = CV_OUT_START as int;
    let cv = CV_IN_START as int;
    lemma_glue(w);
    assert(public_link_at(w, IS_HASH_A as int, out, PI_HASH_A_OFFSET as int, i));
    assert(public_link_at(w, IS_HASH_B as int, out, PI_HASH_B_OFFSET as int, i));
    assert(public_link_at(w, IS_USE_JOB_KEY as int, cv, PI_JOB_KEY_OFFSET as int, i));
    assert(public_link_at(
        w,
        IS_USE_COMMITMENT_HASH as int,
        cv,
        PI_COMMITMENT_HASH_OFFSET as int,
        i,
    ));
    if w.cur[IS_HASH_A as int] == 1 {
        lemma_linked_value(w, IS_HASH_A as int, out, PI_HASH_A_OFFSET as int, i);
    }
    if w.cur[IS_HASH_B as int] == 1 {
        lemma_linked_value(w, IS_HASH_B as int, out, PI_HASH_B_OFFSET as int, i);
    }
    if w.cur[IS_USE_JOB_KEY as int] == 1 {
        lemma_linked_value(w, IS_USE_JOB_KEY as int, cv, PI_JOB_KEY_OFFSET as int, i);
    }
    if w.cur[IS_USE_COMMITMENT_HASH as int] == 1 {
        lemma_linked_value(
            w,
            IS_USE_COMMITMENT_HASH as int,
            cv,
            PI_COMMITMENT_HASH_OFFSET as int,
            i,
        );
    }
}

/// Where the selector is one, a packed cell is the value of its bytes.
proof fn lemma_packed_value(w: Window, selector: int, packed: int, bytes: int, i: int)
    requires
        w.canonical(),
        0 <= packed + i < w.cur.len(),
        selector == 1,
        pack_link_at(selector, w.cur, packed, bytes, i),
    ensures
        w.cur[packed + i] == enc(polyval(w.cur, bytes + i * 4, 4, 256)),
{
    let a = w.cur[packed + i] as int;
    let v = polyval(w.cur, bytes + i * 4, 4, 256);
    assert(1 * (a - v) == a - v);
    lemma_enc_feq(v);
    lemma_zero_add(a - v, v - enc(v));
    lemma_feq_canonical(a, enc(v));
}

/// On the first round of a matrix message, every message word is the value of
/// its four message bytes.
pub proof fn message_words_hold_bytes(w: Window, i: int)
    requires
        composite_window(w),
        composite_rules(w),
        w.cur[IS_MSG_MAT as int] == 1,
        w.cur[IS_NEW_BLAKE as int] == 1,
        0 <= i < 16,
    ensures
        w.cur[BLAKE3_MSG_START + i] == enc(polyval(w.cur, UINT8_DATA_START + i * 4, 4, 256)),
{
    lemma_glue(w);
    let s = w.cur;
    assert(1 * 1 == 1);
    assert(pack_link_at(1, s, BLAKE3_MSG_START as int, UINT8_DATA_START as int, i));
    lemma_packed_value(w, 1, BLAKE3_MSG_START as int, UINT8_DATA_START as int, i);
}

/// On a row that reads operands, every packed operand word is the value of its
/// four operand bytes.
pub proof fn operand_words_hold_bytes(w: Window, i: int)
    requires
        composite_window(w),
        composite_rules(w),
        w.cur[IS_RESET_CUMSUM as int] + w.cur[IS_UPDATE_CUMSUM as int] == 1,
        0 <= i < 8,
    ensures
        w.cur[A_NOISED_START + i] == enc(polyval(w.cur, A_NOISED_UNPACK_START + i * 4, 4, 256)),
        w.cur[B_NOISED_START + i] == enc(polyval(w.cur, B_NOISED_UNPACK_START + i * 4, 4, 256)),
{
    lemma_glue(w);
    let s = w.cur;
    assert(pack_link_at(1, s, A_NOISED_START as int, A_NOISED_UNPACK_START as int, i));
    assert(pack_link_at(1, s, B_NOISED_START as int, B_NOISED_UNPACK_START as int, i));
    lemma_packed_value(w, 1, A_NOISED_START as int, A_NOISED_UNPACK_START as int, i);
    lemma_packed_value(w, 1, B_NOISED_START as int, B_NOISED_UNPACK_START as int, i);
}

/// Rows whose limbs are in range have the operand identifiers that the packed
/// program word names: equal words mean equal identifiers.
pub proof fn operand_word_fixes_identifiers(v: Window, w: Window)
    requires
        composite_window(v),
        composite_window(w),
        composite_rules(v),
        composite_rules(w),
        limbs_in_range(v.cur),
        limbs_in_range(w.cur),
        v.cur[AB_ID_PREP as int] == w.cur[AB_ID_PREP as int],
    ensures
        v.cur[A_ID as int] == w.cur[A_ID as int],
        v.cur[B_ID as int] == w.cur[B_ID as int],
{
    lemma_identifiers(v);
    lemma_identifiers(w);
}

/// The limbs of the operand identifiers are below `2^13`.
pub open spec fn limbs_in_range(s: Seq<u64>) -> bool {
    forall|j: int|
        AB_ID_LIMBS_START <= j < AB_ID_LIMBS_START + 4 ==> (#[trigger] s[j]) < 8192
}

/// The identifiers and the packed word of a row whose limbs are in range.
proof fn lemma_identifiers(w: Window)
    requires
        composite_window(w),
        composite_rules(w),
        limbs_in_range(w.cur),
    ensures
        w.cur[A_ID as int] < 0x400_0000,
        w.cur[B_ID as int] < 0x400_0000,
        w.cur[AB_ID_PREP as int] == w.cur[A_ID as int] + w.cur[B_ID as int] * 0x400_0000,
{
    lemma_glue(w);
    let s = w.cur;
    let at = AB_ID_LIMBS_START as int;
    let a_id = s[at] + s[at + 1] * 8192;
    let b_id = s[at + 2] + s[at + 3] * 8192;
    assert(s[at] < 8192 && s[at + 1] < 8192 && s[at + 2] < 8192 && s[at + 3] < 8192);
    lemma_feq_canonical(s[A_ID as int] as int, a_id);
    lemma_feq_canonical(s[B_ID as int] as int, b_id);
    lemma_feq_canonical(s[AB_ID_PREP as int] as int, a_id + b_id * 0x400_0000);
}

/// On a keyed row the key is the public job key.
pub proof fn keyed_row_uses_job_key(sx_bound: bool, w: Window, i: int)
    requires
        composite_window(w),
        pinned_rules(sx_bound, w),
        w.cur[IS_JOB_KEYED as int] == 1,
        0 <= i < 8,
    ensures
        w.cur[CV_IN_START + i] == w.public[PI_JOB_KEY_OFFSET + i],
{
    assert(public_link_at(
        w,
        IS_JOB_KEYED as int,
        CV_IN_START as int,
        PI_JOB_KEY_OFFSET as int,
        i,
    ));
    let a = w.cur[CV_IN_START + i] as int;
    let b = w.public[PI_JOB_KEY_OFFSET + i] as int;
    assert(1 * (a - b) == a - b);
    lemma_feq_canonical(a, b);
}

/// A row that hashes the jackpot starts a hash, and its message is the folded
/// state.
pub proof fn jackpot_message_is_folded_state(sx_bound: bool, w: Window, i: int)
    requires
        composite_window(w),
        pinned_rules(sx_bound, w),
        w.cur[IS_MSG_JACKPOT as int] == 1,
        0 <= i < 16,
    ensures
        w.cur[IS_NEW_BLAKE as int] == 1,
        w.cur[BLAKE3_MSG_START + i] == w.cur[FOLD_STATE_START + i],
{
    assert(column_link_at(
        w,
        IS_MSG_JACKPOT as int,
        BLAKE3_MSG_START as int,
        FOLD_STATE_START as int,
        i,
    ));
    let a = w.cur[BLAKE3_MSG_START + i] as int;
    let b = w.cur[FOLD_STATE_START + i] as int;
    assert(1 * (a - b) == a - b);
    lemma_feq_canonical(a, b);
    let n = w.cur[IS_NEW_BLAKE as int] as int;
    assert(1 * (1 - n) == 1 - n);
    lemma_feq_canonical(1, n);
}

/// The weighted sum of an empty selector.
pub proof fn lemma_none_hot_index(s: Seq<u64>, start: int, n: nat)
    requires
        none_hot(s, start, n as int),
    ensures
        index_sum(s, start, n) == 0,
    decreases n,
{
    if n > 0 {
        lemma_none_hot_index(s, start, (n - 1) as nat);
        assert(s[start + n - 1] == 0);
        assert(0 * (n - 1) == 0);
    }
}

/// The weighted sum of a one-hot selector is the selected position.
pub proof fn lemma_one_hot_index(s: Seq<u64>, start: int, n: nat, k: int)
    requires
        0 <= k < n,
        one_hot(s, start, n as int, k),
    ensures
        index_sum(s, start, n) == k,
    decreases n,
{
    if k == n - 1 {
        assert(none_hot(s, start, n - 1));
        lemma_none_hot_index(s, start, (n - 1) as nat);
        assert(s[start + n - 1] == 1);
        assert(1 * (n - 1) == n - 1);
    } else {
        assert(one_hot(s, start, n - 1, k));
        lemma_one_hot_index(s, start, (n - 1) as nat, k);
        assert(s[start + n - 1] == 0);
        assert(0 * (n - 1) == 0);
    }
}

/// The lane that a row's stripe-xor schedule word selects.
pub proof fn lemma_sx_word(w: Window)
    requires
        composite_window(w),
        composite_rules(w),
    ensures
        w.cur[SX_IS_ACTIVE as int] == 0 || w.cur[SX_IS_ACTIVE as int] == 1,
        w.cur[SX_IS_ACTIVE as int] == 0 ==> none_hot(w.cur, SX_LANE_SEL_START as int, 64)
            && w.cur[SX_CONTROL_PREP as int] == 0,
        w.cur[SX_IS_ACTIVE as int] == 1 ==> ({
            let lane = hot_index(w.cur, SX_LANE_SEL_START as int, 64);
            &&& 0 <= lane < 64
            &&& one_hot(w.cur, SX_LANE_SEL_START as int, 64, lane)
            &&& w.cur[SX_CONTROL_PREP as int] == 1 + 2 * lane
        }),
{
    let s = w.cur;
    let start = SX_LANE_SEL_START as int;
    lemma_selectors(w);
    lemma_glue(w);
    let active = s[SX_IS_ACTIVE as int] as int;
    bool_check_is_boolean(active);
    selector_follows_flag(s, active, start, 64);
    assert(schedule_rules(s));
    if active == 0 {
        lemma_none_hot_index(s, start, 64);
        lemma_feq_canonical(s[SX_CONTROL_PREP as int] as int, 0);
    } else {
        let lane = hot_index(s, start, 64);
        lemma_one_hot_index(s, start, 64, lane);
        lemma_feq_canonical(s[SX_CONTROL_PREP as int] as int, 1 + 2 * lane);
    }
}

/// The stripe-xor schedule word fixes the row's activity and its lane: two
/// rows with the same word do the same.
pub proof fn sx_word_fixes_schedule(v: Window, w: Window)
    requires
        composite_window(v),
        composite_window(w),
        composite_rules(v),
        composite_rules(w),
        v.cur[SX_CONTROL_PREP as int] == w.cur[SX_CONTROL_PREP as int],
    ensures
        v.cur[SX_IS_ACTIVE as int] == w.cur[SX_IS_ACTIVE as int],
        forall|j: int|
            SX_LANE_SEL_START <= j < SX_LANE_SEL_START + 64 ==> #[trigger] v.cur[j] == w.cur[j],
{
    lemma_sx_word(v);
    lemma_sx_word(w);
    assert forall|j: int|
        SX_LANE_SEL_START <= j < SX_LANE_SEL_START + 64 implies #[trigger] v.cur[j]
        == w.cur[j] by {
        assert(w.cur[j] == w.cur[j]);
    }
}

/// The parts of a row's tile schedule word.
pub proof fn lemma_rb_word(w: Window)
    requires
        composite_window(w),
        composite_rules(w),
    ensures
        ({
            let s = w.cur;
            let start = TA_SB_SEL_START as int;
            let active = s[TA_IS_ACTIVE as int];
            let reset = s[TA_IS_RESET as int];
            let reduce = s[TR_IS_ACTIVE as int];
            let stripe = s[TR_STRIPE_RESET as int];
            let block = if active == 1 {
                hot_index(s, start, 64)
            } else {
                0
            };
            &&& active == 0 || active == 1
            &&& reset == 0 || reset == 1
            &&& reduce == 0 || reduce == 1
            &&& stripe == 0 || stripe == 1
            &&& active == 0 ==> none_hot(s, start, 64)
            &&& active == 1 ==> 0 <= block < 64 && one_hot(s, start, 64, block)
            &&& s[RB_CONTROL_PREP as int] == active + reset * 2 + block * 4 + reduce * 256 + stripe
                * 512
        }),
{
    let s = w.cur;
    let start = TA_SB_SEL_START as int;
    let active = s[TA_IS_ACTIVE as int] as int;
    let reset = s[TA_IS_RESET as int] as int;
    let reduce = s[TR_IS_ACTIVE as int] as int;
    let stripe = s[TR_STRIPE_RESET as int] as int;
    lemma_selectors(w);
    lemma_glue(w);
    bool_check_is_boolean(active);
    bool_check_is_boolean(reset);
    bool_check_is_boolean(reduce);
    bool_check_is_boolean(stripe);
    selector_follows_flag(s, active, start, 64);
    assert(schedule_rules(s));
    let block = if active == 1 {
        hot_index(s, start, 64)
    } else {
        0
    };
    if active == 1 {
        lemma_one_hot_index(s, start, 64, block);
    } else {
        lemma_none_hot_index(s, start, 64);
    }
    lemma_feq_canonical(
        s[RB_CONTROL_PREP as int] as int,
        active + reset * 2 + block * 4 + reduce * 256 + stripe * 512,
    );
}

/// The tile schedule word fixes the flags of the accumulator and the
/// reduction and the selected sub-block: two rows with the same word do the
/// same.
pub proof fn rb_word_fixes_schedule(v: Window, w: Window)
    requires
        composite_window(v),
        composite_window(w),
        composite_rules(v),
        composite_rules(w),
        v.cur[RB_CONTROL_PREP as int] == w.cur[RB_CONTROL_PREP as int],
    ensures
        v.cur[TA_IS_ACTIVE as int] == w.cur[TA_IS_ACTIVE as int],
        v.cur[TA_IS_RESET as int] == w.cur[TA_IS_RESET as int],
        v.cur[TR_IS_ACTIVE as int] == w.cur[TR_IS_ACTIVE as int],
        v.cur[TR_STRIPE_RESET as int] == w.cur[TR_STRIPE_RESET as int],
        forall|j: int|
            TA_SB_SEL_START <= j < TA_SB_SEL_START + 64 ==> #[trigger] v.cur[j] == w.cur[j],
{
    lemma_rb_word(v);
    lemma_rb_word(w);
    assert forall|j: int|
        TA_SB_SEL_START <= j < TA_SB_SEL_START + 64 implies #[trigger] v.cur[j] == w.cur[j] by {
        assert(w.cur[j] == w.cur[j]);
    }
}

/// On a row that folds into the stripe register, the folded cells are the
/// matrix accumulator of the row below.
pub proof fn folded_cells_are_accumulator(w: Window, k: int)
    requires
        composite_window(w),
        composite_rules(w),
        !w.last,
        w.cur[SX_IS_ACTIVE as int] == 1,
        0 <= k < 4,
    ensures
        w.cur[SX_IN_START + k] == w.nxt[CUMSUM_TILE_START + k],
{
    reveal(composite_rules);
    assert(cumsum_link(w, k));
    let a = w.cur[SX_IN_START + k] as int;
    let b = w.nxt[CUMSUM_TILE_START + k] as int;
    assert(1 * (a - b) == a - b);
    lemma_feq_canonical(a, b);
}

/// The stripe selection picks one lane.
pub proof fn lemma_stripe_bind(s: Seq<u64>, n: nat, k: int)
    requires
        0 <= k,
        forall|j: int|
            FOLD_STRIPE_SEL_START <= j < FOLD_STRIPE_SEL_START + n ==> (#[trigger] s[j]) == if j
                == FOLD_STRIPE_SEL_START + k {
                1int
            } else {
                0int
            },
    ensures
        stripe_bind(s, n) == if k < n {
            s[FOLD_XSTEP as int] - s[SX_XR_START + k]
        } else {
            0
        },
    decreases n,
{
    if n > 0 {
        lemma_stripe_bind(s, (n - 1) as nat, k);
        let d = s[FOLD_XSTEP as int] - s[SX_XR_START + n - 1];
        assert(s[FOLD_STRIPE_SEL_START + n - 1] == if k == n - 1 {
            1int
        } else {
            0int
        });
        assert(0 * d == 0);
        assert(1 * d == d);
    }
}

/// On a fold row that selects a stripe, the folded scalar is that stripe's
/// lane of the register.
pub proof fn folded_scalar_is_stripe_lane(w: Window, stripe: int)
    requires
        composite_window(w),
        pinned_rules(true, w),
        0 <= stripe < 64,
        one_hot(w.cur, FOLD_STRIPE_SEL_START as int, 64, stripe),
    ensures
        w.cur[FOLD_XSTEP as int] == w.cur[SX_XR_START + stripe],
{
    lemma_stripe_bind(w.cur, 64, stripe);
    lemma_feq_canonical(w.cur[FOLD_XSTEP as int] as int, w.cur[SX_XR_START + stripe] as int);
}

/// On the transition from a reducing row into a fold row, the folded scalar is
/// the running scalar folded with the reduced cells.
pub proof fn folded_scalar_is_reduced_stripe(sx_bound: bool, w: Window)
    requires
        composite_window(w),
        composite_rules(w),
        pinned_rules(sx_bound, w),
        !w.last,
        w.cur[TR_IS_ACTIVE as int] == 1,
        w.nxt[FOLD_IS_FOLD as int] == 1,
    ensures
        w.cur[TR_XSTEP as int] <= u32::MAX,
        w.nxt[FOLD_XSTEP as int] == (w.cur[TR_XSTEP as int] as u32) ^ xor_fold(
            inputs(TileReduceOffsets::composite().parity(), w.cur),
        ),
{
    assert(fold_link(w));
    let a = w.nxt[FOLD_XSTEP as int] as int;
    let b = w.cur[TR_NEW as int] as int;
    assert(1 * 1 * (a - b) == a - b);
    lemma_feq_canonical(a, b);
    assert(tile_reduce_rules(TileReduceOffsets::composite(), w)) by {
        reveal(composite_rules);
    }
    active_row_folds_inputs(TileReduceOffsets::composite(), w);
}

/// A strided inner product with an empty selector.
pub proof fn lemma_none_hot_strided(s: Seq<u64>, a: int, t: Seq<u64>, b: int, step: int, n: nat)
    requires
        none_hot(s, a, n as int),
    ensures
        strided_dot(s, a, t, b, step, n) == 0,
    decreases n,
{
    if n > 0 {
        lemma_none_hot_strided(s, a, t, b, step, (n - 1) as nat);
        assert(s[a + n - 1] == 0);
        assert(0 * t[b + (n - 1) * step] == 0);
    }
}

/// A strided inner product with a one-hot selector.
pub proof fn lemma_one_hot_strided(
    s: Seq<u64>,
    a: int,
    t: Seq<u64>,
    b: int,
    step: int,
    n: nat,
    k: int,
)
    requires
        0 <= k < n,
        one_hot(s, a, n as int, k),
    ensures
        strided_dot(s, a, t, b, step, n) == t[b + k * step],
    decreases n,
{
    if k == n - 1 {
        assert(none_hot(s, a, n - 1));
        lemma_none_hot_strided(s, a, t, b, step, (n - 1) as nat);
        assert(s[a + n - 1] == 1);
        assert(1 * t[b + (n - 1) * step] == t[b + (n - 1) * step]);
    } else {
        assert(one_hot(s, a, n - 1, k));
        lemma_one_hot_strided(s, a, t, b, step, (n - 1) as nat, k);
        assert(s[a + n - 1] == 0);
        assert(0 * t[b + (n - 1) * step] == 0);
    }
}

/// On a row that updates and reduces a sub-block, the reduced cells are that
/// sub-block's cells in the row below.
pub proof fn reduced_cells_are_held(w: Window, i: int)
    requires
        composite_window(w),
        composite_rules(w),
        !w.last,
        w.cur[TR_IS_ACTIVE as int] == 1,
        w.cur[TA_IS_ACTIVE as int] == 1,
        0 <= i < 4,
    ensures
        ({
            let block = hot_index(w.cur, TA_SB_SEL_START as int, 64);
            &&& 0 <= block < 64
            &&& one_hot(w.cur, TA_SB_SEL_START as int, 64, block)
            &&& w.cur[TR_IN_START + i] == w.nxt[TA_ACC_START + block * 4 + i]
        }),
{
    lemma_rb_word(w);
    let block = hot_index(w.cur, TA_SB_SEL_START as int, 64);
    lemma_one_hot_strided(
        w.cur,
        TA_SB_SEL_START as int,
        w.nxt,
        TA_ACC_START + i,
        4,
        64,
        block,
    );
    lemma_glue(w);
    assert(reduce_link(w, i));
    let a = w.cur[TR_IN_START + i] as int;
    let b = w.nxt[TA_ACC_START + i + block * 4] as int;
    assert(1 * (a - b) == a - b);
    lemma_feq_canonical(a, b);
}

/// On a row that updates the tile accumulator, the inner products are those of
/// the row's operand tiles.
pub proof fn held_dots_are_tile_products(w: Window, k: int)
    requires
        composite_window(w),
        composite_rules(w),
        w.cur[TA_IS_ACTIVE as int] == 1,
        0 <= k < 4,
    ensures
        w.cur[TA_DOT_START + k] == enc(
            crate::air::dot_cells(
                w.cur,
                A_NOISED_UNPACK_START + (k / 2) * 16,
                w.cur,
                B_NOISED_UNPACK_START + (k % 2) * 16,
                16,
            ),
        ),
{
    lemma_glue(w);
    assert(dot_link(w.cur, k));
    let a = w.cur[TA_DOT_START + k] as int;
    let d = crate::air::dot_cells(
        w.cur,
        A_NOISED_UNPACK_START + (k / 2) * 16,
        w.cur,
        B_NOISED_UNPACK_START + (k % 2) * 16,
        16,
    );
    assert(1 * (a - d) == a - d);
    lemma_enc_feq(d);
    lemma_zero_add(a - d, d - enc(d));
    lemma_feq_canonical(a, enc(d));
}

} // verus!
