//! The composite constraint system: every chip of the circuit, and the
//! constraints that tie the chips to one another and to the public values.

pub mod laws;
pub mod links;
pub mod rows;

use vstd::arithmetic::power2::pow2;
use vstd::prelude::*;

use crate::air::{
    all_bool, dot_cells, dot_expr, index_sum, index_sum_expr, strided_dot, strided_dot_next_expr,
    sum_cells, sum_expr, ConstraintBuilder, Expr, Rows, Window,
};
use crate::chips::input::{input_rules, InputChip};
use crate::chips::jackpot::chip::{jackpot_rules, JackpotChip, JackpotOffsets};
use crate::chips::matmul::chip::{matmul_rules, MatmulCumsumChip, MatmulOffsets};
use crate::chips::stark_row::{stark_row_rules, StarkRowChip};
use crate::chips::stripe_xor::{stripe_xor_composite_rules, StripeXorChip};
use crate::chips::tile_accum::{tile_accum_rules, TileAccumChip, TileAccumOffsets};
use crate::chips::tile_reduce::{tile_reduce_rules, TileReduceChip, TileReduceOffsets};
use crate::composite_full_air::links::{
    column_link, emit_column_link, emit_last_public, emit_last_same, emit_pack_link,
    emit_public_link, pack_link, public_link, public_values, same_values,
};
use crate::composite_layout::{
    AB_ID_LIMBS_START, AB_ID_PREP, A_ID, A_NOISED_START, A_NOISED_UNPACK_START, BLAKE3_MSG_START,
    B_ID, B_NOISED_START, B_NOISED_UNPACK_START, CONTROL_PREP, CUMSUM_TILE_START,
    CV_IN_START, CV_OR_TWEAK_PREP, CV_OUT_START, FOLD_IS_FOLD, FOLD_STATE_START,
    FOLD_STRIPE_SEL_START, FOLD_XSTEP, IS_HASH_A, IS_HASH_B, IS_HASH_JACKPOT, IS_JOB_KEYED,
    IS_MSG_JACKPOT, IS_MSG_MAT, IS_NEW_BLAKE, IS_RESET_CUMSUM, IS_UPDATE_CUMSUM,
    IS_USE_COMMITMENT_HASH, IS_USE_JOB_KEY, JACKPOT_MSG_START, MSG_PAIR_SEL_START,
    NOISE_PACKED_PREP, RB_CONTROL_PREP, STARK_ROW_IDX, SX_CONTROL_PREP, SX_IS_ACTIVE,
    SX_LANE_SEL_START, SX_XR_START, TA_ACC_START, TA_DOT_START, TA_IS_ACTIVE, TA_IS_RESET,
    TA_SB_SEL_START, TILE_D, TILE_H, TOTAL_TRACE_WIDTH, TR_IN_START, TR_IS_ACTIVE, TR_NEW,
    TR_STRIPE_RESET, UINT8_DATA_START,
};
use crate::composite_public::{
    NUM_PUBLIC_VALUES, PI_COMMITMENT_HASH_OFFSET, PI_CUMSUM_OFFSET, PI_HASH_A_OFFSET,
    PI_HASH_B_OFFSET, PI_HASH_JACKPOT_OFFSET, PI_JACKPOT_OFFSET, PI_JOB_KEY_OFFSET,
};
use crate::field::{canonical, is_zero, Val};
use crate::matrix::RowMajorMatrix;

verus! {

/// The composite constraint system.
#[derive(Copy, Clone, Debug, Default)]
pub struct CompositeFullAir;

/// Number of columns that make up a row's program.
pub const PROGRAM_WIDTH: usize = 22;

/// The columns that make up a row's program, in the order of the fixed trace.
pub open spec fn program_col(k: int) -> int {
    if k == 0 {
        CONTROL_PREP as int
    } else if k < 9 {
        NOISE_PACKED_PREP + (k - 1)
    } else if k == 9 {
        CV_OR_TWEAK_PREP as int
    } else if k == 10 {
        AB_ID_PREP as int
    } else if k < 15 {
        A_ID + (k - 11)
    } else if k < 19 {
        B_ID + (k - 15)
    } else if k == 19 {
        STARK_ROW_IDX as int
    } else if k == 20 {
        SX_CONTROL_PREP as int
    } else {
        RB_CONTROL_PREP as int
    }
}

/// The columns that make up a row's program.
pub fn program_cols() -> (cols: [usize; 22])
    ensures
        forall|k: int| 0 <= k < 22 ==> #[trigger] cols@[k] == program_col(k),
        forall|k: int| 0 <= k < 22 ==> (#[trigger] cols@[k]) < TOTAL_TRACE_WIDTH,
{
    [
        CONTROL_PREP,
        NOISE_PACKED_PREP,
        NOISE_PACKED_PREP + 1,
        NOISE_PACKED_PREP + 2,
        NOISE_PACKED_PREP + 3,
        NOISE_PACKED_PREP + 4,
        NOISE_PACKED_PREP + 5,
        NOISE_PACKED_PREP + 6,
        NOISE_PACKED_PREP + 7,
        CV_OR_TWEAK_PREP,
        AB_ID_PREP,
        A_ID,
        A_ID + 1,
        A_ID + 2,
        A_ID + 3,
        B_ID,
        B_ID + 1,
        B_ID + 2,
        B_ID + 3,
        STARK_ROW_IDX,
        SX_CONTROL_PREP,
        RB_CONTROL_PREP,
    ]
}

/// The operand identifiers are the values of their limbs, and the packed word
/// holds both.
pub open spec fn operand_rules(s: Seq<u64>) -> bool {
    let at = AB_ID_LIMBS_START as int;
    let a_id = s[at] + s[at + 1] * 8192;
    let b_id = s[at + 2] + s[at + 3] * 8192;
    &&& is_zero(s[A_ID as int] - a_id)
    &&& is_zero(s[B_ID as int] - b_id)
    &&& is_zero(s[AB_ID_PREP as int] - (a_id + b_id * 0x400_0000))
}

/// The schedule words hold the activity flags and the selected positions.
pub open spec fn schedule_rules(s: Seq<u64>) -> bool {
    &&& is_zero(
        s[SX_CONTROL_PREP as int] - (s[SX_IS_ACTIVE as int] + index_sum(
            s,
            SX_LANE_SEL_START as int,
            64,
        ) * 2),
    )
    &&& is_zero(
        s[RB_CONTROL_PREP as int] - (s[TA_IS_ACTIVE as int] + s[TA_IS_RESET as int] * 2
            + index_sum(s, TA_SB_SEL_START as int, 64) * 4 + s[TR_IS_ACTIVE as int] * 256
            + s[TR_STRIPE_RESET as int] * 512),
    )
}

/// On a row that updates the tile accumulator, an inner product is that of
/// the row's operand tiles.
pub open spec fn dot_link(s: Seq<u64>, k: int) -> bool {
    is_zero(
        s[TA_IS_ACTIVE as int] * (s[TA_DOT_START + k] - dot_cells(
            s,
            A_NOISED_UNPACK_START + (k / 2) * 16,
            s,
            B_NOISED_UNPACK_START + (k % 2) * 16,
            16,
        )),
    )
}

/// On a row that reduces a sub-block, an input is the selected sub-block's
/// cell in the row below.
pub open spec fn reduce_link(w: Window, i: int) -> bool {
    is_zero(
        w.cur[TR_IS_ACTIVE as int] * (w.cur[TR_IN_START + i] - strided_dot(
            w.cur,
            TA_SB_SEL_START as int,
            w.nxt,
            TA_ACC_START + i,
            4,
            64,
        )),
    )
}

/// On a row that reads operands, the packed operands pack the unpacked ones.
pub open spec fn operand_pack_rules(s: Seq<u64>) -> bool {
    let gate = s[IS_RESET_CUMSUM as int] + s[IS_UPDATE_CUMSUM as int];
    &&& pack_link(gate, s, A_NOISED_START as int, A_NOISED_UNPACK_START as int, 8)
    &&& pack_link(gate, s, B_NOISED_START as int, B_NOISED_UNPACK_START as int, 8)
}

/// Digests and keys are the public values where their selectors are set.
pub open spec fn digest_rules(w: Window) -> bool {
    let out = CV_OUT_START as int;
    let cv = CV_IN_START as int;
    &&& public_link(w, IS_HASH_A as int, out, PI_HASH_A_OFFSET as int, 8)
    &&& public_link(w, IS_HASH_B as int, out, PI_HASH_B_OFFSET as int, 8)
    &&& public_link(w, IS_HASH_JACKPOT as int, out, PI_HASH_JACKPOT_OFFSET as int, 8)
    &&& public_link(w, IS_USE_JOB_KEY as int, cv, PI_JOB_KEY_OFFSET as int, 8)
    &&& public_link(w, IS_USE_COMMITMENT_HASH as int, cv, PI_COMMITMENT_HASH_OFFSET as int, 8)
    &&& public_link(w, IS_HASH_JACKPOT as int, cv, PI_COMMITMENT_HASH_OFFSET as int, 8)
}

/// On the first round of a matrix message, one message pair is selected and
/// every message word packs its four bytes.
pub open spec fn message_rules(s: Seq<u64>) -> bool {
    let gate = s[IS_MSG_MAT as int] * s[IS_NEW_BLAKE as int];
    &&& all_bool(s, MSG_PAIR_SEL_START as int, 8)
    &&& is_zero(sum_cells(s, MSG_PAIR_SEL_START as int, 8) - gate)
    &&& pack_link(gate, s, BLAKE3_MSG_START as int, UINT8_DATA_START as int, 16)
}

/// On the last row, the accumulator and the jackpot state are public.
pub open spec fn outcome_rules(w: Window) -> bool {
    w.last ==> {
        &&& public_values(w, CUMSUM_TILE_START as int, PI_CUMSUM_OFFSET as int, 4)
        &&& public_values(w, JACKPOT_MSG_START as int, PI_JACKPOT_OFFSET as int, 16)
    }
}

/// The constraints that tie the chips to one another and to the public values.
#[verifier::opaque]
pub open spec fn glue_rules(w: Window) -> bool {
    &&& operand_rules(w.cur)
    &&& schedule_rules(w.cur)
    &&& forall|k: int| 0 <= k < 4 ==> #[trigger] dot_link(w.cur, k)
    &&& !w.last ==> forall|i: int| 0 <= i < 4 ==> #[trigger] reduce_link(w, i)
    &&& operand_pack_rules(w.cur)
    &&& digest_rules(w)
    &&& message_rules(w.cur)
    &&& outcome_rules(w)
}

/// The constraints of the composite system at one window, apart from those of
/// the components that the system is handed.
#[verifier::opaque]
pub open spec fn composite_rules(w: Window) -> bool {
    &&& stark_row_rules(w)
    &&& input_rules(w)
    &&& matmul_rules(MatmulOffsets::composite(), w)
    &&& jackpot_rules(JackpotOffsets::composite(), w)
    &&& stripe_xor_composite_rules(w)
    &&& tile_accum_rules(TileAccumOffsets::composite(), w)
    &&& tile_reduce_rules(TileReduceOffsets::composite(), w)
    &&& glue_rules(w)
}

/// Emits the constraints on the operand identifiers.
fn emit_operand_rules(b: &mut ConstraintBuilder)
    ensures
        forall|w: Window| #[trigger]
            final(b).holds(w) <==> (old(b).holds(w) && operand_rules(w.cur)),
        forall|d: nat|
            d >= 4 && old(b).degree_at_most(d) ==> #[trigger] final(b).degree_at_most(d),
{
    let at: usize = AB_ID_LIMBS_START;
    let a_high = Expr::cur(at + 1).times(Expr::constant(8192));
    let a_id = Expr::cur(at).plus(a_high);
    let b_high = Expr::cur(at + 3).times(Expr::constant(8192));
    let b_id = Expr::cur(at + 2).plus(b_high);
    b.assert_eq(Expr::cur(A_ID), a_id.dup());
    let ghost b1 = *b;
    b.assert_eq(Expr::cur(B_ID), b_id.dup());
    let ghost b2 = *b;
    let shifted = b_id.dup().times(Expr::constant(0x400_0000));
    let word = a_id.dup().plus(shifted);
    b.assert_eq(Expr::cur(AB_ID_PREP), word);
    assert forall|w: Window| #[trigger]
        b.holds(w) <==> (old(b).holds(w) && operand_rules(w.cur)) by {
        let s = w.cur;
        assert(a_high.value(w) == s[at + 1] * 8192);
        assert(b_high.value(w) == s[at + 3] * 8192);
        assert(a_id.value(w) == s[at as int] + a_high.value(w));
        assert(b_id.value(w) == s[at + 2] + b_high.value(w));
        assert(b1.holds(w) <==> (old(b).holds(w) && is_zero(s[A_ID as int] - a_id.value(w))));
        assert(b2.holds(w) <==> (b1.holds(w) && is_zero(s[B_ID as int] - b_id.value(w))));
        assert(shifted.value(w) == b_id.value(w) * 0x400_0000);
        assert(word.value(w) == a_id.value(w) + shifted.value(w));
    }
}

/// Emits the constraints on the schedule words.
fn emit_schedule_rules(b: &mut ConstraintBuilder)
    ensures
        forall|w: Window| #[trigger]
            final(b).holds(w) <==> (old(b).holds(w) && schedule_rules(w.cur)),
        forall|d: nat|
            d >= 4 && old(b).degree_at_most(d) ==> #[trigger] final(b).degree_at_most(d),
{
    let lane = index_sum_expr(SX_LANE_SEL_START, 64).times(Expr::constant(2));
    let sx_word = Expr::cur(SX_IS_ACTIVE).plus(lane);
    b.assert_eq(Expr::cur(SX_CONTROL_PREP), sx_word);
    let ghost b1 = *b;
    let reset = Expr::cur(TA_IS_RESET).times(Expr::constant(2));
    let block = index_sum_expr(TA_SB_SEL_START, 64).times(Expr::constant(4));
    let reduce = Expr::cur(TR_IS_ACTIVE).times(Expr::constant(256));
    let stripe = Expr::cur(TR_STRIPE_RESET).times(Expr::constant(512));
    let w1 = Expr::cur(TA_IS_ACTIVE).plus(reset);
    let w2 = w1.plus(block);
    let w3 = w2.plus(reduce);
    let rb_word = w3.plus(stripe);
    b.assert_eq(Expr::cur(RB_CONTROL_PREP), rb_word);
    assert forall|w: Window| #[trigger]
        b.holds(w) <==> (old(b).holds(w) && schedule_rules(w.cur)) by {
        let s = w.cur;
        assert(lane.value(w) == index_sum(s, SX_LANE_SEL_START as int, 64) * 2);
        assert(sx_word.value(w) == s[SX_IS_ACTIVE as int] + lane.value(w));
        assert(b1.holds(w) <==> (old(b).holds(w) && is_zero(
            s[SX_CONTROL_PREP as int] - sx_word.value(w),
        )));
        assert(reset.value(w) == s[TA_IS_RESET as int] * 2);
        assert(block.value(w) == index_sum(s, TA_SB_SEL_START as int, 64) * 4);
        assert(reduce.value(w) == s[TR_IS_ACTIVE as int] * 256);
        assert(stripe.value(w) == s[TR_STRIPE_RESET as int] * 512);
        assert(w1.value(w) == s[TA_IS_ACTIVE as int] + reset.value(w));
        assert(w2.value(w) == w1.value(w) + block.value(w));
        assert(w3.value(w) == w2.value(w) + reduce.value(w));
        assert(rb_word.value(w) == w3.value(w) + stripe.value(w));
    }
}

/// Emits the constraints that tie the inner products to the operand tiles.
fn emit_dot_links(b: &mut ConstraintBuilder)
    ensures
        forall|w: Window| #[trigger]
            final(b).holds(w) <==> (old(b).holds(w) && (forall|k: int|
                0 <= k < 4 ==> #[trigger] dot_link(w.cur, k))),
        forall|d: nat|
            d >= 4 && old(b).degree_at_most(d) ==> #[trigger] final(b).degree_at_most(d),
{
    let mut k: usize = 0;
    while k < 4
        invariant
            k <= 4,
            forall|w: Window| #[trigger]
                b.holds(w) <==> (old(b).holds(w) && (forall|i: int|
                    0 <= i < k ==> #[trigger] dot_link(w.cur, i))),
            forall|d: nat|
                d >= 4 && old(b).degree_at_most(d) ==> #[trigger] b.degree_at_most(d),
        decreases 4 - k,
    {
        let ghost before = *b;
        let dot = dot_expr(
            A_NOISED_UNPACK_START + (k / TILE_H) * TILE_D,
            B_NOISED_UNPACK_START + (k % TILE_H) * TILE_D,
            TILE_D,
        );
        let diff = Expr::cur(TA_DOT_START + k).minus(dot);
        let e = Expr::cur(TA_IS_ACTIVE).times(diff);
        b.assert_zero(e);
        k = k + 1;
        assert forall|w: Window| #[trigger]
            b.holds(w) <==> (old(b).holds(w) && (forall|i: int|
                0 <= i < k ==> #[trigger] dot_link(w.cur, i))) by {
            assert(e.value(w) == w.cur[TA_IS_ACTIVE as int] * diff.value(w));
            assert(b.holds(w) <==> (before.holds(w) && dot_link(w.cur, k - 1)));
        }
    }
}

/// Emits the constraints that tie the reduced cells to the held accumulator.
fn emit_reduce_links(b: &mut ConstraintBuilder)
    ensures
        forall|w: Window| #[trigger]
            final(b).holds(w) <==> (old(b).holds(w) && (!w.last ==> (forall|i: int|
                0 <= i < 4 ==> #[trigger] reduce_link(w, i)))),
        forall|d: nat|
            d >= 4 && old(b).degree_at_most(d) ==> #[trigger] final(b).degree_at_most(d),
{
    let mut i: usize = 0;
    while i < 4
        invariant
            i <= 4,
            forall|w: Window| #[trigger]
                b.holds(w) <==> (old(b).holds(w) && (!w.last ==> (forall|k: int|
                    0 <= k < i ==> #[trigger] reduce_link(w, k)))),
            forall|d: nat|
                d >= 4 && old(b).degree_at_most(d) ==> #[trigger] b.degree_at_most(d),
        decreases 4 - i,
    {
        let ghost before = *b;
        let held = strided_dot_next_expr(TA_SB_SEL_START, TA_ACC_START + i, 4, 64);
        let diff = Expr::cur(TR_IN_START + i).minus(held);
        let e = Expr::cur(TR_IS_ACTIVE).times(diff);
        b.assert_zero_on(Rows::Transition, e);
        i = i + 1;
        assert forall|w: Window| #[trigger]
            b.holds(w) <==> (old(b).holds(w) && (!w.last ==> (forall|k: int|
                0 <= k < i ==> #[trigger] reduce_link(w, k)))) by {
            assert(e.value(w) == w.cur[TR_IS_ACTIVE as int] * diff.value(w));
            assert(b.holds(w) <==> (before.holds(w) && (!w.last ==> reduce_link(w, i - 1))));
        }
    }
}

/// Emits the constraints that tie packed operands to unpacked ones.
fn emit_operand_pack_rules(b: &mut ConstraintBuilder)
    ensures
        forall|w: Window| #[trigger]
            final(b).holds(w) <==> (old(b).holds(w) && operand_pack_rules(w.cur)),
        forall|d: nat|
            d >= 4 && old(b).degree_at_most(d) ==> #[trigger] final(b).degree_at_most(d),
{
    let gate = Expr::cur(IS_RESET_CUMSUM).plus(Expr::cur(IS_UPDATE_CUMSUM));
    emit_pack_link(b, &gate, A_NOISED_START, A_NOISED_UNPACK_START, 8);
    let ghost b1 = *b;
    emit_pack_link(b, &gate, B_NOISED_START, B_NOISED_UNPACK_START, 8);
    assert forall|w: Window| #[trigger]
        b.holds(w) <==> (old(b).holds(w) && operand_pack_rules(w.cur)) by {
        assert(b1.holds(w) <==> (old(b).holds(w) && pack_link(
            gate.value(w),
            w.cur,
            A_NOISED_START as int,
            A_NOISED_UNPACK_START as int,
            8,
        )));
    }
}

/// Emits the constraints that tie digests and keys to the public values.
fn emit_digest_rules(b: &mut ConstraintBuilder)
    ensures
        forall|w: Window| #[trigger]
            final(b).holds(w) <==> (old(b).holds(w) && digest_rules(w)),
        forall|d: nat|
            d >= 4 && old(b).degree_at_most(d) ==> #[trigger] final(b).degree_at_most(d),
{
    emit_public_link(b, IS_HASH_A, CV_OUT_START, PI_HASH_A_OFFSET, 8);
    let ghost b1 = *b;
    emit_public_link(b, IS_HASH_B, CV_OUT_START, PI_HASH_B_OFFSET, 8);
    let ghost b2 = *b;
    emit_public_link(b, IS_HASH_JACKPOT, CV_OUT_START, PI_HASH_JACKPOT_OFFSET, 8);
    let ghost b3 = *b;
    emit_public_link(b, IS_USE_JOB_KEY, CV_IN_START, PI_JOB_KEY_OFFSET, 8);
    let ghost b4 = *b;
    emit_public_link(b, IS_USE_COMMITMENT_HASH, CV_IN_START, PI_COMMITMENT_HASH_OFFSET, 8);
    let ghost b5 = *b;
    emit_public_link(b, IS_HASH_JACKPOT, CV_IN_START, PI_COMMITMENT_HASH_OFFSET, 8);
    assert forall|w: Window| #[trigger]
        b.holds(w) <==> (old(b).holds(w) && digest_rules(w)) by {
        let out = CV_OUT_START as int;
        let cv = CV_IN_START as int;
        assert(b1.holds(w) <==> (old(b).holds(w) && public_link(
            w,
            IS_HASH_A as int,
            out,
            PI_HASH_A_OFFSET as int,
            8,
        )));
        assert(b2.holds(w) <==> (b1.holds(w) && public_link(
            w,
            IS_HASH_B as int,
            out,
            PI_HASH_B_OFFSET as int,
            8,
        )));
        assert(b3.holds(w) <==> (b2.holds(w) && public_link(
            w,
            IS_HASH_JACKPOT as int,
            out,
            PI_HASH_JACKPOT_OFFSET as int,
            8,
        )));
        assert(b4.holds(w) <==> (b3.holds(w) && public_link(
            w,
            IS_USE_JOB_KEY as int,
            cv,
            PI_JOB_KEY_OFFSET as int,
            8,
        )));
        assert(b5.holds(w) <==> (b4.holds(w) && public_link(
            w,
            IS_USE_COMMITMENT_HASH as int,
            cv,
            PI_COMMITMENT_HASH_OFFSET as int,
            8,
        )));
    }
}

/// Emits the constraints on matrix messages.
fn emit_message_rules(b: &mut ConstraintBuilder)
    ensures
        forall|w: Window| #[trigger]
            final(b).holds(w) <==> (old(b).holds(w) && message_rules(w.cur)),
        forall|d: nat|
            d >= 4 && old(b).degree_at_most(d) ==> #[trigger] final(b).degree_at_most(d),
{
    let gate = Expr::cur(IS_MSG_MAT).times(Expr::cur(IS_NEW_BLAKE));
    b.assert_bools(MSG_PAIR_SEL_START, 8);
    let ghost b1 = *b;
    b.assert_eq(sum_expr(MSG_PAIR_SEL_START, 8), gate.dup());
    let ghost b2 = *b;
    emit_pack_link(b, &gate, BLAKE3_MSG_START, UINT8_DATA_START, 16);
    assert forall|w: Window| #[trigger]
        b.holds(w) <==> (old(b).holds(w) && message_rules(w.cur)) by {
        let s = w.cur;
        assert(gate.value(w) == s[IS_MSG_MAT as int] * s[IS_NEW_BLAKE as int]);
        assert(b1.holds(w) <==> (old(b).holds(w) && all_bool(s, MSG_PAIR_SEL_START as int, 8)));
        assert(b2.holds(w) <==> (b1.holds(w) && is_zero(
            sum_cells(s, MSG_PAIR_SEL_START as int, 8) - gate.value(w),
        )));
    }
}

/// Emits the constraints that tie the chips to one another and to the public
/// values.
fn emit_glue(b: &mut ConstraintBuilder)
    ensures
        forall|w: Window| #[trigger] final(b).holds(w) <==> (old(b).holds(w) && glue_rules(w)),
        forall|d: nat|
            d >= 4 && old(b).degree_at_most(d) ==> #[trigger] final(b).degree_at_most(d),
{
    emit_operand_rules(b);
    let ghost b1 = *b;
    emit_schedule_rules(b);
    let ghost b2 = *b;
    emit_dot_links(b);
    let ghost b3 = *b;
    emit_reduce_links(b);
    let ghost b4 = *b;
    emit_operand_pack_rules(b);
    let ghost b5 = *b;
    emit_digest_rules(b);
    let ghost b6 = *b;
    emit_message_rules(b);
    let ghost b7 = *b;
    emit_last_public(b, CUMSUM_TILE_START, PI_CUMSUM_OFFSET, 4);
    let ghost b8 = *b;
    emit_last_public(b, JACKPOT_MSG_START, PI_JACKPOT_OFFSET, 16);
    assert forall|w: Window| #[trigger]
        b.holds(w) <==> (old(b).holds(w) && glue_rules(w)) by {
        reveal(glue_rules);
        assert(b1.holds(w) <==> (old(b).holds(w) && operand_rules(w.cur)));
        assert(b2.holds(w) <==> (b1.holds(w) && schedule_rules(w.cur)));
        assert(b3.holds(w) <==> (b2.holds(w) && (forall|k: int|
            0 <= k < 4 ==> #[trigger] dot_link(w.cur, k))));
        assert(b4.holds(w) <==> (b3.holds(w) && (!w.last ==> (forall|i: int|
            0 <= i < 4 ==> #[trigger] reduce_link(w, i)))));
        assert(b5.holds(w) <==> (b4.holds(w) && operand_pack_rules(w.cur)));
        assert(b6.holds(w) <==> (b5.holds(w) && digest_rules(w)));
        assert(b7.holds(w) <==> (b6.holds(w) && message_rules(w.cur)));
        assert(b8.holds(w) <==> (b7.holds(w) && (w.last ==> public_values(
            w,
            CUMSUM_TILE_START as int,
            PI_CUMSUM_OFFSET as int,
            4,
        ))));
    }
}

impl CompositeFullAir {
    /// The number of columns.
    pub fn width(&self) -> (n: usize)
        ensures
            n == TOTAL_TRACE_WIDTH,
    {
        TOTAL_TRACE_WIDTH
    }

    /// The number of public values.
    pub fn num_public_values(&self) -> (n: usize)
        ensures
            n == NUM_PUBLIC_VALUES,
    {
        NUM_PUBLIC_VALUES
    }

    /// Emits the constraints of the whole circuit. The components are the
    /// chips for the range tables, the byte conversion, the control word, the
    /// hash and the fold, which state their constraints over the same columns.
    pub fn eval(&self, builder: &mut ConstraintBuilder, components: ConstraintBuilder)
        ensures
            forall|w: Window| #[trigger]
                final(builder).holds(w) <==> (old(builder).holds(w) && components.holds(w)
                    && composite_rules(w)),
            forall|d: nat|
                d >= 4 && old(builder).degree_at_most(d) && components.degree_at_most(d)
                    ==> #[trigger] final(builder).degree_at_most(d),
    {
        StarkRowChip::new().eval(builder);
        let ghost b1 = *builder;
        builder.append(components);
        let ghost b2 = *builder;
        InputChip::new().eval(builder);
        let ghost b3 = *builder;
        MatmulCumsumChip::eval_composite(builder);
        let ghost b4 = *builder;
        JackpotChip::eval_composite(builder);
        let ghost b5 = *builder;
        StripeXorChip::eval_composite(builder);
        let ghost b6 = *builder;
        TileAccumChip::eval_composite(builder);
        let ghost b7 = *builder;
        TileReduceChip::eval_composite(builder);
        let ghost b8 = *builder;
        emit_glue(builder);
        assert forall|w: Window| #[trigger]
            builder.holds(w) <==> (old(builder).holds(w) && components.holds(w)
                && composite_rules(w)) by {
            reveal(composite_rules);
            assert(b1.holds(w) <==> (old(builder).holds(w) && stark_row_rules(w)));
            assert(b2.holds(w) <==> (b1.holds(w) && components.holds(w)));
            assert(b3.holds(w) <==> (b2.holds(w) && input_rules(w)));
            assert(b4.holds(w) <==> (b3.holds(w) && matmul_rules(MatmulOffsets::composite(), w)));
            assert(b5.holds(w) <==> (b4.holds(w) && jackpot_rules(
                JackpotOffsets::composite(),
                w,
            )));
            assert(b6.holds(w) <==> (b5.holds(w) && stripe_xor_composite_rules(w)));
            assert(b7.holds(w) <==> (b6.holds(w) && tile_accum_rules(
                TileAccumOffsets::composite(),
                w,
            )));
            assert(b8.holds(w) <==> (b7.holds(w) && tile_reduce_rules(
                TileReduceOffsets::composite(),
                w,
            )));
        }
    }
}

/// Why a program does not fit the fixed trace.
#[derive(Debug, PartialEq, Eq)]
pub enum ProgramShapeError {
    /// The program has the wrong number of columns.
    WidthMismatch { expected: usize, actual: usize },
    /// The program's height is not a power of two.
    HeightNotPowerOfTwo { height: usize },
}

/// The base-two logarithm of a power of two.
fn exact_log2(h: usize) -> (r: Option<usize>)
    ensures
        match r {
            Some(k) => h == pow2(k as nat),
            None => forall|k: nat| h != #[trigger] pow2(k),
        },
{
    let mut k: usize = 0;
    let mut power: usize = 1;
    proof {
        vstd::arithmetic::power2::lemma2_to64();
    }
    while power < h
        invariant
            1 <= power,
            power == pow2(k as nat),
            k < power,
            forall|e: nat| e < k ==> #[trigger] pow2(e) < h,
        decreases h - power,
    {
        proof {
            vstd::arithmetic::power2::lemma_pow2_unfold((k + 1) as nat);
            assert(pow2((k + 1) as nat) == 2 * power);
        }
        if power > h / 2 {
            assert forall|e: nat| h != #[trigger] pow2(e) by {
                if e > k {
                    if e > k + 1 {
                        vstd::arithmetic::power2::lemma_pow2_strictly_increases(
                            (k + 1) as nat,
                            e,
                        );
                    }
                } else if e < k {
                    assert(pow2(e) < h);
                }
            }
            return None;
        }
        power = power * 2;
        k = k + 1;
    }
    if power == h {
        Some(k)
    } else {
        proof {
            assert forall|e: nat| h != #[trigger] pow2(e) by {
                if e < k {
                    assert(pow2(e) < h);
                } else if e > k {
                    vstd::arithmetic::power2::lemma_pow2_strictly_increases(k as nat, e);
                }
            }
        }
        None
    }
}

/// The number of rows of a matrix, none where it has no columns.
fn matrix_height(m: &RowMajorMatrix) -> (h: usize)
    ensures
        h == m.spec_height(),
{
    if m.width == 0 {
        0
    } else {
        m.height()
    }
}

/// A program that fits the fixed trace: the right columns, and a power of two
/// of rows.
pub open spec fn program_fits(program: RowMajorMatrix) -> bool {
    program.width == PROGRAM_WIDTH && exists|k: nat| program.spec_height() == #[trigger] pow2(k)
}

/// The base-two logarithm of a program's height, or why the program does not
/// fit the fixed trace. The width is checked first.
pub fn program_degree_bits(program: &RowMajorMatrix) -> (r: Result<usize, ProgramShapeError>)
    ensures
        r is Ok <==> program_fits(*program),
        r matches Ok(bits) ==> program.spec_height() == pow2(bits as nat),
        program.width != PROGRAM_WIDTH ==> r == Err::<usize, ProgramShapeError>(
            ProgramShapeError::WidthMismatch { expected: PROGRAM_WIDTH, actual: program.width },
        ),
        program.width == PROGRAM_WIDTH && !program_fits(*program) ==> (r matches Err(
            ProgramShapeError::HeightNotPowerOfTwo { height },
        ) && height == program.spec_height()),
{
    let actual: usize = program.width;
    if actual != PROGRAM_WIDTH {
        return Err(ProgramShapeError::WidthMismatch { expected: PROGRAM_WIDTH, actual });
    }
    let height: usize = matrix_height(program);
    match exact_log2(height) {
        Some(bits) => Ok(bits),
        None => Err(ProgramShapeError::HeightNotPowerOfTwo { height }),
    }
}

/// A matrix holds the program columns of the whole rows of a trace.
pub open spec fn is_program_of(program: RowMajorMatrix, trace: RowMajorMatrix) -> bool {
    let n = trace.values@.len() as int / TOTAL_TRACE_WIDTH as int;
    &&& program.width == PROGRAM_WIDTH
    &&& program.values@.len() == n * PROGRAM_WIDTH
    &&& forall|r: int, k: int|
        0 <= r < n && 0 <= k < PROGRAM_WIDTH ==> #[trigger] program.values@[r * PROGRAM_WIDTH + k]
            == trace.values@[r * TOTAL_TRACE_WIDTH + program_col(k)]
}

/// The program of a trace: its program columns, row by row.
pub fn extract_program(trace: &RowMajorMatrix) -> (program: RowMajorMatrix)
    ensures
        is_program_of(program, *trace),
        canonical(trace.values@) ==> canonical(program.values@),
{
    let n: usize = trace.values.len() / TOTAL_TRACE_WIDTH;
    let cols = program_cols();
    let mut values: Vec<Val> = Vec::new();
    proof {
        let len = trace.values@.len() as int;
        let rest = len % (TOTAL_TRACE_WIDTH as int);
        vstd::arithmetic::div_mod::lemma_fundamental_div_mod(len, TOTAL_TRACE_WIDTH as int);
        vstd::arithmetic::div_mod::lemma_mod_bound(len, TOTAL_TRACE_WIDTH as int);
        assert(n * TOTAL_TRACE_WIDTH <= len) by (nonlinear_arith)
            requires
                len == TOTAL_TRACE_WIDTH * n + rest,
                rest >= 0,
        ;
    }
    let mut r: usize = 0;
    while r < n
        invariant
            r <= n,
            n * TOTAL_TRACE_WIDTH <= trace.values.len(),
            forall|k: int| 0 <= k < 22 ==> #[trigger] cols@[k] == program_col(k),
            forall|k: int| 0 <= k < 22 ==> (#[trigger] cols@[k]) < TOTAL_TRACE_WIDTH,
            values@.len() == r * PROGRAM_WIDTH,
            forall|i: int, k: int|
                0 <= i < r && 0 <= k < PROGRAM_WIDTH ==> #[trigger] values@[i * PROGRAM_WIDTH + k]
                    == trace.values@[i * TOTAL_TRACE_WIDTH + program_col(k)],
            canonical(trace.values@) ==> canonical(values@),
        decreases n - r,
    {
        assert(r * TOTAL_TRACE_WIDTH + TOTAL_TRACE_WIDTH <= n * TOTAL_TRACE_WIDTH)
            by (nonlinear_arith)
            requires
                r < n,
        ;
        let base: usize = r * TOTAL_TRACE_WIDTH;
        let mut c: usize = 0;
        while c < PROGRAM_WIDTH
            invariant
                c <= 22,
                base == r * TOTAL_TRACE_WIDTH,
                base + TOTAL_TRACE_WIDTH <= trace.values.len(),
                forall|k: int| 0 <= k < 22 ==> #[trigger] cols@[k] == program_col(k),
                forall|k: int| 0 <= k < 22 ==> (#[trigger] cols@[k]) < TOTAL_TRACE_WIDTH,
                values@.len() == r * PROGRAM_WIDTH + c,
                forall|i: int, k: int|
                    0 <= i < r && 0 <= k < PROGRAM_WIDTH ==> #[trigger] values@[i * PROGRAM_WIDTH
                        + k] == trace.values@[i * TOTAL_TRACE_WIDTH + program_col(k)],
                forall|k: int|
                    0 <= k < c ==> #[trigger] values@[r * PROGRAM_WIDTH + k]
                        == trace.values@[r * TOTAL_TRACE_WIDTH + program_col(k)],
                canonical(trace.values@) ==> canonical(values@),
            decreases 22 - c,
        {
            let ghost before = values@;
            assert(cols@[c as int] == program_col(c as int));
            values.push(trace.values[base + cols[c]]);
            proof {
                assert forall|i: int, k: int| 0 <= i < r && 0 <= k < PROGRAM_WIDTH implies
                    #[trigger] values@[i * PROGRAM_WIDTH + k] == trace.values@[i
                    * TOTAL_TRACE_WIDTH + program_col(k)] by {
                    assert(0 <= i * PROGRAM_WIDTH && i * PROGRAM_WIDTH + k < r * PROGRAM_WIDTH)
                        by (nonlinear_arith)
                        requires
                            0 <= i < r,
                            0 <= k < PROGRAM_WIDTH,
                    ;
                    assert(values@[i * PROGRAM_WIDTH + k] == before[i * PROGRAM_WIDTH + k]);
                }
                assert forall|k: int| 0 <= k < c + 1 implies #[trigger] values@[r * PROGRAM_WIDTH
                    + k] == trace.values@[r * TOTAL_TRACE_WIDTH + program_col(k)] by {
                    assert(0 <= r * PROGRAM_WIDTH);
                    if k < c {
                        assert(values@[r * PROGRAM_WIDTH + k] == before[r * PROGRAM_WIDTH + k]);
                    }
                }
            }
            c = c + 1;
        }
        assert((r + 1) * PROGRAM_WIDTH == r * PROGRAM_WIDTH + PROGRAM_WIDTH) by (nonlinear_arith);
        r = r + 1;
    }
    RowMajorMatrix { values, width: PROGRAM_WIDTH }
}

/// The composite constraint system with its program fixed by the verifier.
#[derive(Clone)]
pub struct CompositeFullAirPinned {
    preprocessed: RowMajorMatrix,
    sx_bound: bool,
}

/// The terms `sel[s] * (x - xr[s])` of the first stripes, added up.
pub open spec fn stripe_bind(s: Seq<u64>, n: nat) -> int
    decreases n,
{
    if n == 0 {
        0
    } else {
        stripe_bind(s, (n - 1) as nat) + s[FOLD_STRIPE_SEL_START + n - 1] * (s[FOLD_XSTEP as int]
            - s[SX_XR_START + n - 1])
    }
}

/// A program column holds what the fixed trace says.
pub open spec fn pin_at(w: Window, k: int) -> bool {
    is_zero(w.cur[program_col(k)] - w.fixed[k])
}

/// On the transition from a reducing row into a fold row, the folded scalar is
/// the reduced one.
pub open spec fn fold_link(w: Window) -> bool {
    is_zero(
        w.cur[TR_IS_ACTIVE as int] * w.nxt[FOLD_IS_FOLD as int] * (w.nxt[FOLD_XSTEP as int]
            - w.cur[TR_NEW as int]),
    )
}

/// The constraints of the pinned system at one window, beyond the composite
/// ones: the program is the fixed one, keyed rows use the public key, the
/// final jackpot state is the folded one, the jackpot message is the folded
/// state, and the folded scalars are those of the stripe register (where it is
/// in use) and of the reduction.
pub open spec fn pinned_rules(sx_bound: bool, w: Window) -> bool {
    &&& forall|k: int| 0 <= k < 22 ==> #[trigger] pin_at(w, k)
    &&& public_link(w, IS_JOB_KEYED as int, CV_IN_START as int, PI_JOB_KEY_OFFSET as int, 8)
    &&& w.last ==> same_values(w, JACKPOT_MSG_START as int, FOLD_STATE_START as int, 16)
    &&& is_zero(w.cur[IS_MSG_JACKPOT as int] * (1 - w.cur[IS_NEW_BLAKE as int]))
    &&& column_link(
        w,
        IS_MSG_JACKPOT as int,
        BLAKE3_MSG_START as int,
        FOLD_STATE_START as int,
        16,
    )
    &&& sx_bound ==> is_zero(stripe_bind(w.cur, 64))
    &&& !w.last ==> fold_link(w)
}

/// The stripe selection as a polynomial.
fn stripe_bind_expr() -> (r: Expr)
    ensures
        forall|w: Window| #[trigger] r.value(w) == stripe_bind(w.cur, 64),
        r.degree() <= 2,
{
    let mut acc = Expr::constant(0);
    let mut i: usize = 0;
    while i < 64
        invariant
            i <= 64,
            forall|w: Window| #[trigger] acc.value(w) == stripe_bind(w.cur, i as nat),
            acc.degree() <= 2,
        decreases 64 - i,
    {
        let ghost before = acc;
        let diff = Expr::cur(FOLD_XSTEP).minus(Expr::cur(SX_XR_START + i));
        let term = Expr::cur(FOLD_STRIPE_SEL_START + i).times(diff);
        acc = acc.plus(term);
        i = i + 1;
        assert forall|w: Window| #[trigger] acc.value(w) == stripe_bind(w.cur, i as nat) by {
            assert(before.value(w) == stripe_bind(w.cur, (i - 1) as nat));
            assert(term.value(w) == w.cur[FOLD_STRIPE_SEL_START + i - 1] * diff.value(w));
        }
    }
    acc
}

/// Emits the constraints that fix the program columns.
fn emit_pins(b: &mut ConstraintBuilder)
    ensures
        forall|w: Window| #[trigger]
            final(b).holds(w) <==> (old(b).holds(w) && (forall|k: int|
                0 <= k < 22 ==> #[trigger] pin_at(w, k))),
        forall|d: nat|
            d >= 1 && old(b).degree_at_most(d) ==> #[trigger] final(b).degree_at_most(d),
{
    let cols = program_cols();
    let mut i: usize = 0;
    while i < PROGRAM_WIDTH
        invariant
            i <= 22,
            forall|k: int| 0 <= k < 22 ==> #[trigger] cols@[k] == program_col(k),
            forall|w: Window| #[trigger]
                b.holds(w) <==> (old(b).holds(w) && (forall|k: int|
                    0 <= k < i ==> #[trigger] pin_at(w, k))),
            forall|d: nat|
                d >= 1 && old(b).degree_at_most(d) ==> #[trigger] b.degree_at_most(d),
        decreases 22 - i,
    {
        let ghost before = *b;
        assert(cols@[i as int] == program_col(i as int));
        b.assert_eq(Expr::cur(cols[i]), Expr::fixed(i));
        i = i + 1;
        assert forall|w: Window| #[trigger]
            b.holds(w) <==> (old(b).holds(w) && (forall|k: int|
                0 <= k < i ==> #[trigger] pin_at(w, k))) by {
            assert(b.holds(w) <==> (before.holds(w) && pin_at(w, i - 1)));
        }
    }
}

impl CompositeFullAirPinned {
    /// The fixed program.
    pub closed spec fn program(self) -> RowMajorMatrix {
        self.preprocessed
    }

    /// Whether folded scalars are read off the stripe register.
    pub closed spec fn reads_stripes(self) -> bool {
        self.sx_bound
    }

    /// The system for a program that fits, with the stripe register in use.
    pub fn new(program: RowMajorMatrix) -> (r: Self)
        requires
            program_fits(program),
        ensures
            r.program() == program,
            r.reads_stripes(),
    {
        Self::new_with(program, true)
    }

    /// The system for a program, with the stripe register in use, or why the
    /// program does not fit.
    pub fn try_new(program: RowMajorMatrix) -> (r: Result<Self, ProgramShapeError>)
        ensures
            r is Ok <==> program_fits(program),
            r matches Ok(air) ==> air.program() == program && air.reads_stripes(),
            program.width != PROGRAM_WIDTH ==> (r matches Err(
                ProgramShapeError::WidthMismatch { expected, actual },
            ) && expected == PROGRAM_WIDTH && actual == program.width),
            program.width == PROGRAM_WIDTH && !program_fits(program) ==> (r matches Err(
                ProgramShapeError::HeightNotPowerOfTwo { height },
            ) && height == program.spec_height()),
    {
        Self::try_new_with(program, true)
    }

    /// The system for a program that fits.
    pub fn new_with(program: RowMajorMatrix, sx_bound: bool) -> (r: Self)
        requires
            program_fits(program),
        ensures
            r.program() == program,
            r.reads_stripes() == sx_bound,
    {
        CompositeFullAirPinned { preprocessed: program, sx_bound }
    }

    /// The system for a program, or why the program does not fit.
    pub fn try_new_with(program: RowMajorMatrix, sx_bound: bool) -> (r: Result<
        Self,
        ProgramShapeError,
    >)
        ensures
            r is Ok <==> program_fits(program),
            r matches Ok(air) ==> air.program() == program && air.reads_stripes() == sx_bound,
            program.width != PROGRAM_WIDTH ==> (r matches Err(
                ProgramShapeError::WidthMismatch { expected, actual },
            ) && expected == PROGRAM_WIDTH && actual == program.width),
            program.width == PROGRAM_WIDTH && !program_fits(program) ==> (r matches Err(
                ProgramShapeError::HeightNotPowerOfTwo { height },
            ) && height == program.spec_height()),
    {
        match program_degree_bits(&program) {
            Ok(_bits) => Ok(CompositeFullAirPinned { preprocessed: program, sx_bound }),
            Err(e) => Err(e),
        }
    }

    /// The number of columns.
    pub fn width(&self) -> (n: usize)
        ensures
            n == TOTAL_TRACE_WIDTH,
    {
        TOTAL_TRACE_WIDTH
    }

    /// The number of public values.
    pub fn num_public_values(&self) -> (n: usize)
        ensures
            n == NUM_PUBLIC_VALUES,
    {
        NUM_PUBLIC_VALUES
    }

    /// The number of fixed columns.
    pub fn preprocessed_width(&self) -> (n: usize)
        ensures
            n == PROGRAM_WIDTH,
    {
        PROGRAM_WIDTH
    }

    /// The fixed trace.
    pub fn preprocessed_trace(&self) -> (r: &RowMajorMatrix)
        ensures
            *r == self.program(),
    {
        &self.preprocessed
    }

    /// Emits the constraints of the whole circuit with the program fixed. The
    /// components are those of [`CompositeFullAir::eval`].
    pub fn eval(&self, builder: &mut ConstraintBuilder, components: ConstraintBuilder)
        ensures
            forall|w: Window| #[trigger]
                final(builder).holds(w) <==> (old(builder).holds(w) && components.holds(w)
                    && composite_rules(w) && pinned_rules(self.reads_stripes(), w)),
            forall|d: nat|
                d >= 4 && old(builder).degree_at_most(d) && components.degree_at_most(d)
                    ==> #[trigger] final(builder).degree_at_most(d),
    {
        CompositeFullAir.eval(builder, components);
        let ghost b1 = *builder;
        emit_pins(builder);
        let ghost b2 = *builder;
        emit_public_link(builder, IS_JOB_KEYED, CV_IN_START, PI_JOB_KEY_OFFSET, 8);
        let ghost b3 = *builder;
        emit_last_same(builder, JACKPOT_MSG_START, FOLD_STATE_START, 16);
        let ghost b4 = *builder;
        let later = Expr::constant(1).minus(Expr::cur(IS_NEW_BLAKE));
        let first_round = Expr::cur(IS_MSG_JACKPOT).times(later);
        builder.assert_zero(first_round);
        let ghost b5 = *builder;
        emit_column_link(builder, IS_MSG_JACKPOT, BLAKE3_MSG_START, FOLD_STATE_START, 16);
        let ghost b6 = *builder;
        if self.sx_bound {
            builder.assert_zero(stripe_bind_expr());
        }
        let ghost b7 = *builder;
        let gate = Expr::cur(TR_IS_ACTIVE).times(Expr::next(FOLD_IS_FOLD));
        let diff = Expr::next(FOLD_XSTEP).minus(Expr::cur(TR_NEW));
        let e = gate.times(diff);
        builder.assert_zero_on(Rows::Transition, e);
        assert forall|w: Window| #[trigger]
            builder.holds(w) <==> (old(builder).holds(w) && components.holds(w)
                && composite_rules(w) && pinned_rules(self.reads_stripes(), w)) by {
            assert(b1.holds(w) <==> (old(builder).holds(w) && components.holds(w)
                && composite_rules(w)));
            assert(b2.holds(w) <==> (b1.holds(w) && (forall|k: int|
                0 <= k < 22 ==> #[trigger] pin_at(w, k))));
            assert(b3.holds(w) <==> (b2.holds(w) && public_link(
                w,
                IS_JOB_KEYED as int,
                CV_IN_START as int,
                PI_JOB_KEY_OFFSET as int,
                8,
            )));
            assert(b4.holds(w) <==> (b3.holds(w) && (w.last ==> same_values(
                w,
                JACKPOT_MSG_START as int,
                FOLD_STATE_START as int,
                16,
            ))));
            assert(first_round.value(w) == w.cur[IS_MSG_JACKPOT as int] * later.value(w));
            assert(b5.holds(w) <==> (b4.holds(w) && is_zero(first_round.value(w))));
            assert(b6.holds(w) <==> (b5.holds(w) && column_link(
                w,
                IS_MSG_JACKPOT as int,
                BLAKE3_MSG_START as int,
                FOLD_STATE_START as int,
                16,
            )));
            assert(b7.holds(w) <==> (b6.holds(w) && (self.sx_bound ==> is_zero(
                stripe_bind(w.cur, 64),
            ))));
            assert(gate.value(w) == w.cur[TR_IS_ACTIVE as int] * w.nxt[FOLD_IS_FOLD as int]);
            assert(e.value(w) == gate.value(w) * diff.value(w));
        }
    }
}

} // verus!
