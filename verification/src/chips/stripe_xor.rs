//! The stripe-xor chip: a register of 64 lanes that carries, for each stripe,
//! the exclusive or of the accumulator cells seen so far.
//!
//! Each active row folds four signed words into the lane that a one-hot
//! selector picks:
//!
//! ```text
//!   XR_next[lane] = XR[lane] ^ IN[0] ^ IN[1] ^ IN[2] ^ IN[3]
//!   XR_next[s]    = XR[s]                              (s != lane)
//!   first row:    XR == 0
//! ```
//!
//! A reset flag starts a segment: the register entering a reset row is zero,
//! and nothing carries over from the row before. More stripes than lanes are
//! handled in segments that reuse the same lanes.

pub mod cols;
pub mod laws;

use vstd::prelude::*;

use crate::air::{
    all_bool, all_ternary, all_zero, dot_cells, dot_expr, dot_next_expr, is_bool, sum_cells,
    sum_expr, ConstraintBuilder, Expr, Rows, Window,
};
use crate::bits::xor_fold;
use crate::chips::parity::{
    emit_parity_block, fill_parity_block, parity_block, parity_filled, ParityOffsets,
};
use crate::chips::selector::one_hot;
use crate::composite_layout::{
    CUMSUM_TILE_START, SX_IN_BITS_START, SX_IN_START, SX_IS_ACTIVE, SX_LANE_SEL_START,
    SX_NEW_SEL, SX_NEW_SEL_BITS_START, SX_Q_START, SX_SEG_RESET, SX_XR_SEL_BITS_START,
    SX_XR_START,
};
use crate::field::{canonical, is_zero, Val};
use crate::matrix::{
    flatten_rows, lemma_flatten_push, lemma_matrix_rows, padded_height,
    padded_height_is_least_power_of_two, padded_len, push_row, val_of_u32, zero_row,
    RowMajorMatrix,
};

verus! {

/// Lanes of the register.
pub const STATE_LEN: usize = 64;

/// Words folded per row.
pub const IN_LEN: usize = 4;

/// The stripe-xor chip.
#[derive(Debug, Default, Clone, Copy)]
pub struct StripeXorChip;

/// Columns of the stripe-xor chip.
#[derive(Copy, Clone, Debug)]
pub struct StripeXorOffsets {
    pub is_active: usize,
    pub lane_sel: usize,
    pub in_cells: usize,
    pub in_bits: usize,
    pub xr: usize,
    pub xr_sel_bits: usize,
    pub new_sel: usize,
    pub new_sel_bits: usize,
    pub q: usize,
    /// Segment reset flag.
    pub seg_reset: usize,
}

impl StripeXorOffsets {
    /// The columns of the stand-alone chip.
    pub open spec fn local() -> StripeXorOffsets {
        StripeXorOffsets {
            is_active: cols::IS_ACTIVE,
            lane_sel: cols::LANE_SEL,
            in_cells: cols::IN,
            in_bits: cols::IN_BITS,
            xr: cols::XR,
            xr_sel_bits: cols::XR_SEL_BITS,
            new_sel: cols::NEW_SEL,
            new_sel_bits: cols::NEW_SEL_BITS,
            q: cols::Q,
            seg_reset: cols::SEG_RESET,
        }
    }

    /// The columns in the composite trace.
    pub open spec fn composite() -> StripeXorOffsets {
        StripeXorOffsets {
            is_active: SX_IS_ACTIVE,
            lane_sel: SX_LANE_SEL_START,
            in_cells: SX_IN_START,
            in_bits: SX_IN_BITS_START,
            xr: SX_XR_START,
            xr_sel_bits: SX_XR_SEL_BITS_START,
            new_sel: SX_NEW_SEL,
            new_sel_bits: SX_NEW_SEL_BITS_START,
            q: SX_Q_START,
            seg_reset: SX_SEG_RESET,
        }
    }

    /// The columns of the parity block.
    pub open spec fn parity(self) -> ParityOffsets {
        ParityOffsets {
            in_cells: self.in_cells,
            in_bits: self.in_bits,
            op_bits: self.xr_sel_bits,
            new: self.new_sel,
            new_bits: self.new_sel_bits,
            q: self.q,
        }
    }

    /// Every column index can be computed.
    pub open spec fn fits(self) -> bool {
        &&& self.parity().fits()
        &&& self.lane_sel + 64 <= usize::MAX
        &&& self.xr + 64 <= usize::MAX
    }

    /// Every column lies within a row.
    pub open spec fn within(self, width: int) -> bool {
        &&& self.parity().within(width)
        &&& self.is_active < width
        &&& self.lane_sel + 64 <= width
        &&& self.xr + 64 <= width
        &&& self.seg_reset < width
    }
}

/// On a reset row the register is zero; the flag is boolean.
pub open spec fn reset_rules(off: StripeXorOffsets, w: Window) -> bool {
    &&& is_bool(w.cur[off.seg_reset as int] as int)
    &&& forall|j: int|
        off.xr <= j < off.xr + 64 ==> is_zero(
            w.cur[off.seg_reset as int] * (#[trigger] w.cur[j]),
        )
}

/// The selector is boolean and adds up to the activity flag.
pub open spec fn lane_rules(off: StripeXorOffsets, w: Window) -> bool {
    &&& is_bool(w.cur[off.is_active as int] as int)
    &&& all_bool(w.cur, off.lane_sel as int, 64)
    &&& is_zero(sum_cells(w.cur, off.lane_sel as int, 64) - w.cur[off.is_active as int])
}

/// A lane that is not selected passes through, except into a reset row where
/// resets are in force.
pub open spec fn passthrough_rule(
    off: StripeXorOffsets,
    reset_aware: bool,
    w: Window,
    s: int,
) -> bool {
    let idle = 1 - w.cur[off.lane_sel + s];
    let diff = w.nxt[off.xr + s] - w.cur[off.xr + s];
    is_zero(
        if reset_aware {
            (1 - w.nxt[off.seg_reset as int]) * idle * diff
        } else {
            idle * diff
        },
    )
}

/// The selected lane takes the new value, the others pass through.
pub open spec fn update_rules(off: StripeXorOffsets, reset_aware: bool, w: Window) -> bool {
    &&& is_zero(
        dot_cells(w.cur, off.lane_sel as int, w.nxt, off.xr as int, 64)
            - w.cur[off.new_sel as int],
    )
    &&& forall|s: int| 0 <= s < 64 ==> #[trigger] passthrough_rule(off, reset_aware, w, s)
}

/// The constraints of the stripe-xor chip at one window.
pub open spec fn stripe_xor_rules(off: StripeXorOffsets, reset_aware: bool, w: Window) -> bool {
    &&& reset_aware ==> reset_rules(off, w)
    &&& lane_rules(off, w)
    &&& all_ternary(w.cur, off.q as int, 32)
    &&& parity_block(
        off.parity(),
        w.cur[off.is_active as int] as int,
        dot_cells(w.cur, off.lane_sel as int, w.cur, off.xr as int, 64),
        w.cur,
    )
    &&& w.first ==> all_zero(w.cur, off.xr as int, 64)
    &&& !w.last ==> update_rules(off, reset_aware, w)
}

/// On an active row the folded cells are the accumulator of the row below.
pub open spec fn cumsum_link(w: Window, k: int) -> bool {
    is_zero(
        w.cur[SX_IS_ACTIVE as int] * (w.cur[SX_IN_START + k] - w.nxt[CUMSUM_TILE_START + k]),
    )
}

/// The constraints of the stripe-xor chip in the composite trace: the
/// segmented rules, and the link to the matrix accumulator.
pub open spec fn stripe_xor_composite_rules(w: Window) -> bool {
    &&& stripe_xor_rules(StripeXorOffsets::composite(), true, w)
    &&& !w.last ==> forall|k: int| 0 <= k < 4 ==> #[trigger] cumsum_link(w, k)
}

impl StripeXorChip {
    /// The columns of the stand-alone chip.
    pub fn local_offsets() -> (off: StripeXorOffsets)
        ensures
            off == StripeXorOffsets::local(),
    {
        StripeXorOffsets {
            is_active: cols::IS_ACTIVE,
            lane_sel: cols::LANE_SEL,
            in_cells: cols::IN,
            in_bits: cols::IN_BITS,
            xr: cols::XR,
            xr_sel_bits: cols::XR_SEL_BITS,
            new_sel: cols::NEW_SEL,
            new_sel_bits: cols::NEW_SEL_BITS,
            q: cols::Q,
            seg_reset: cols::SEG_RESET,
        }
    }

    /// The columns in the composite trace.
    pub fn composite_offsets() -> (off: StripeXorOffsets)
        ensures
            off == StripeXorOffsets::composite(),
    {
        StripeXorOffsets {
            is_active: SX_IS_ACTIVE,
            lane_sel: SX_LANE_SEL_START,
            in_cells: SX_IN_START,
            in_bits: SX_IN_BITS_START,
            xr: SX_XR_START,
            xr_sel_bits: SX_XR_SEL_BITS_START,
            new_sel: SX_NEW_SEL,
            new_sel_bits: SX_NEW_SEL_BITS_START,
            q: SX_Q_START,
            seg_reset: SX_SEG_RESET,
        }
    }

    /// The number of columns of the stand-alone chip.
    pub fn width(&self) -> (n: usize)
        ensures
            n == cols::ROW_W,
    {
        cols::ROW_W
    }

    /// Emits the constraints of the stand-alone chip, resets in force.
    pub fn eval(&self, builder: &mut ConstraintBuilder)
        ensures
            forall|w: Window| #[trigger]
                final(builder).holds(w) <==> (old(builder).holds(w) && stripe_xor_rules(
                    StripeXorOffsets::local(),
                    true,
                    w,
                )),
            forall|d: nat|
                d >= 3 && old(builder).degree_at_most(d) ==> #[trigger] final(builder).degree_at_most(d),
    {
        let off = Self::local_offsets();
        Self::eval_at_segmented(builder, &off);
    }

    /// Emits the constraints in the composite trace: the segmented rules, and
    /// the link from the folded cells to the accumulator of the row below.
    pub fn eval_composite(builder: &mut ConstraintBuilder)
        ensures
            forall|w: Window| #[trigger]
                final(builder).holds(w) <==> (old(builder).holds(w)
                    && stripe_xor_composite_rules(w)),
            forall|d: nat|
                d >= 3 && old(builder).degree_at_most(d) ==> #[trigger] final(builder).degree_at_most(d),
    {
        let off = Self::composite_offsets();
        Self::eval_at_segmented(builder, &off);
        let ghost b0 = *builder;
        let mut k: usize = 0;
        while k < IN_LEN
            invariant
                k <= 4,
                forall|w: Window| #[trigger]
                    builder.holds(w) <==> (b0.holds(w) && (!w.last ==> (forall|i: int|
                        0 <= i < k ==> #[trigger] cumsum_link(w, i)))),
                forall|d: nat|
                    d >= 3 && b0.degree_at_most(d) ==> #[trigger] builder.degree_at_most(d),
            decreases 4 - k,
        {
            let ghost before = *builder;
            let diff = Expr::cur(SX_IN_START + k).minus(Expr::next(CUMSUM_TILE_START + k));
            let e = Expr::cur(SX_IS_ACTIVE).times(diff);
            builder.assert_zero_on(Rows::Transition, e);
            k = k + 1;
            assert forall|w: Window| #[trigger]
                builder.holds(w) <==> (b0.holds(w) && (!w.last ==> (forall|i: int|
                    0 <= i < k ==> #[trigger] cumsum_link(w, i)))) by {
                assert(e.value(w) == w.cur[SX_IS_ACTIVE as int] * diff.value(w));
                assert(builder.holds(w) <==> (before.holds(w) && (!w.last ==> cumsum_link(
                    w,
                    k - 1,
                ))));
            }
        }
    }

    /// Emits the constraints at the given columns, without resets: one
    /// accumulation over the whole trace.
    pub fn eval_at(builder: &mut ConstraintBuilder, off: &StripeXorOffsets)
        requires
            off.fits(),
        ensures
            forall|w: Window| #[trigger]
                final(builder).holds(w) <==> (old(builder).holds(w) && stripe_xor_rules(
                    *off,
                    false,
                    w,
                )),
            forall|d: nat|
                d >= 3 && old(builder).degree_at_most(d) ==> #[trigger] final(builder).degree_at_most(d),
    {
        Self::eval_at_impl(builder, off, false);
    }

    /// Emits the constraints at the given columns, resets in force.
    pub fn eval_at_segmented(builder: &mut ConstraintBuilder, off: &StripeXorOffsets)
        requires
            off.fits(),
        ensures
            forall|w: Window| #[trigger]
                final(builder).holds(w) <==> (old(builder).holds(w) && stripe_xor_rules(
                    *off,
                    true,
                    w,
                )),
            forall|d: nat|
                d >= 3 && old(builder).degree_at_most(d) ==> #[trigger] final(builder).degree_at_most(d),
    {
        Self::eval_at_impl(builder, off, true);
    }

    /// Emits the reset constraints.
    fn emit_reset(builder: &mut ConstraintBuilder, off: &StripeXorOffsets)
        requires
            off.fits(),
        ensures
            forall|w: Window| #[trigger]
                final(builder).holds(w) <==> (old(builder).holds(w) && reset_rules(*off, w)),
            forall|d: nat|
                d >= 3 && old(builder).degree_at_most(d) ==> #[trigger] final(builder).degree_at_most(d),
    {
        builder.assert_bool(off.seg_reset);
        let ghost b0 = *builder;
        let mut s: usize = 0;
        while s < STATE_LEN
            invariant
                s <= 64,
                off.fits(),
                forall|w: Window| #[trigger]
                    builder.holds(w) <==> (b0.holds(w) && (forall|j: int|
                        off.xr <= j < off.xr + s ==> is_zero(
                            w.cur[off.seg_reset as int] * (#[trigger] w.cur[j]),
                        ))),
                forall|d: nat|
                    d >= 3 && b0.degree_at_most(d) ==> #[trigger] builder.degree_at_most(d),
            decreases 64 - s,
        {
            let ghost before = *builder;
            let e = Expr::cur(off.seg_reset).times(Expr::cur(off.xr + s));
            builder.assert_zero(e);
            s = s + 1;
            assert forall|w: Window| #[trigger]
                builder.holds(w) <==> (b0.holds(w) && (forall|j: int|
                    off.xr <= j < off.xr + s ==> is_zero(
                        w.cur[off.seg_reset as int] * (#[trigger] w.cur[j]),
                    ))) by {
                assert(e.value(w) == w.cur[off.seg_reset as int] * w.cur[off.xr + s - 1]);
                assert(builder.holds(w) <==> (before.holds(w) && is_zero(e.value(w))));
            }
        }
    }

    /// Emits the constraint that one lane passes through.
    fn emit_passthrough(
        builder: &mut ConstraintBuilder,
        off: &StripeXorOffsets,
        reset_aware: bool,
        s: usize,
    )
        requires
            off.fits(),
            s < 64,
        ensures
            forall|w: Window| #[trigger]
                final(builder).holds(w) <==> (old(builder).holds(w) && (!w.last
                    ==> passthrough_rule(*off, reset_aware, w, s as int))),
            forall|d: nat|
                d >= 3 && old(builder).degree_at_most(d) ==> #[trigger] final(builder).degree_at_most(d),
    {
        let idle = Expr::constant(1).minus(Expr::cur(off.lane_sel + s));
        let diff = Expr::next(off.xr + s).minus(Expr::cur(off.xr + s));
        if reset_aware {
            let carry = Expr::constant(1).minus(Expr::next(off.seg_reset));
            let gate = carry.times(idle);
            let e = gate.times(diff);
            builder.assert_zero_on(Rows::Transition, e);
            assert forall|w: Window| #[trigger]
                builder.holds(w) <==> (old(builder).holds(w) && (!w.last ==> passthrough_rule(
                    *off,
                    reset_aware,
                    w,
                    s as int,
                ))) by {
                assert(gate.value(w) == carry.value(w) * idle.value(w));
                assert(e.value(w) == gate.value(w) * diff.value(w));
            }
        } else {
            let e = idle.times(diff);
            builder.assert_zero_on(Rows::Transition, e);
            assert forall|w: Window| #[trigger]
                builder.holds(w) <==> (old(builder).holds(w) && (!w.last ==> passthrough_rule(
                    *off,
                    reset_aware,
                    w,
                    s as int,
                ))) by {
                assert(e.value(w) == idle.value(w) * diff.value(w));
            }
        }
    }

    /// Emits the constraints on the register of the row below.
    fn emit_update(builder: &mut ConstraintBuilder, off: &StripeXorOffsets, reset_aware: bool)
        requires
            off.fits(),
        ensures
            forall|w: Window| #[trigger]
                final(builder).holds(w) <==> (old(builder).holds(w) && (!w.last ==> update_rules(
                    *off,
                    reset_aware,
                    w,
                ))),
            forall|d: nat|
                d >= 3 && old(builder).degree_at_most(d) ==> #[trigger] final(builder).degree_at_most(d),
    {
        let e = dot_next_expr(off.lane_sel, off.xr, STATE_LEN).minus(Expr::cur(off.new_sel));
        builder.assert_zero_on(Rows::Transition, e);
        let ghost b0 = *builder;
        let mut s: usize = 0;
        while s < STATE_LEN
            invariant
                s <= 64,
                off.fits(),
                forall|w: Window| #[trigger]
                    builder.holds(w) <==> (b0.holds(w) && (!w.last ==> (forall|i: int|
                        0 <= i < s ==> #[trigger] passthrough_rule(*off, reset_aware, w, i)))),
                forall|d: nat|
                    d >= 3 && b0.degree_at_most(d) ==> #[trigger] builder.degree_at_most(d),
            decreases 64 - s,
        {
            let ghost before = *builder;
            Self::emit_passthrough(builder, off, reset_aware, s);
            s = s + 1;
            assert forall|w: Window| #[trigger]
                builder.holds(w) <==> (b0.holds(w) && (!w.last ==> (forall|i: int|
                    0 <= i < s ==> #[trigger] passthrough_rule(*off, reset_aware, w, i)))) by {
                assert(builder.holds(w) <==> (before.holds(w) && (!w.last ==> passthrough_rule(
                    *off,
                    reset_aware,
                    w,
                    s - 1,
                ))));
            }
        }
        assert forall|w: Window| #[trigger]
            builder.holds(w) <==> (old(builder).holds(w) && (!w.last ==> update_rules(
                *off,
                reset_aware,
                w,
            ))) by {
            assert(b0.holds(w) <==> (old(builder).holds(w) && (!w.last ==> is_zero(e.value(w)))));
        }
    }

    /// Emits the constraints at the given columns.
    fn eval_at_impl(builder: &mut ConstraintBuilder, off: &StripeXorOffsets, reset_aware: bool)
        requires
            off.fits(),
        ensures
            forall|w: Window| #[trigger]
                final(builder).holds(w) <==> (old(builder).holds(w) && stripe_xor_rules(
                    *off,
                    reset_aware,
                    w,
                )),
            forall|d: nat|
                d >= 3 && old(builder).degree_at_most(d) ==> #[trigger] final(builder).degree_at_most(d),
    {
        if reset_aware {
            Self::emit_reset(builder, off);
        }
        let ghost b1 = *builder;
        // The activity flag and the selector are checked on every row: the
        // register below reads them on every row.
        builder.assert_bool(off.is_active);
        let ghost b2 = *builder;
        builder.assert_bools(off.lane_sel, STATE_LEN);
        let ghost b3 = *builder;
        builder.assert_eq(sum_expr(off.lane_sel, STATE_LEN), Expr::cur(off.is_active));
        let ghost b4 = *builder;
        // The cubic range check leaves no room for a gate within degree three.
        builder.assert_ternaries(off.q, 32);
        let ghost b5 = *builder;
        let parity = ParityOffsets {
            in_cells: off.in_cells,
            in_bits: off.in_bits,
            op_bits: off.xr_sel_bits,
            new: off.new_sel,
            new_bits: off.new_sel_bits,
            q: off.q,
        };
        let gate = Expr::cur(off.is_active);
        let selected = dot_expr(off.lane_sel, off.xr, STATE_LEN);
        emit_parity_block(builder, &gate, &parity, selected);
        let ghost b6 = *builder;
        builder.assert_zeros_first(off.xr, STATE_LEN);
        let ghost b7 = *builder;
        Self::emit_update(builder, off, reset_aware);
        assert forall|w: Window| #[trigger]
            builder.holds(w) <==> (old(builder).holds(w) && stripe_xor_rules(
                *off,
                reset_aware,
                w,
            )) by {
            assert(b1.holds(w) <==> (old(builder).holds(w) && (reset_aware ==> reset_rules(
                *off,
                w,
            ))));
            assert(b2.holds(w) <==> (b1.holds(w) && is_bool(w.cur[off.is_active as int] as int)));
            assert(b3.holds(w) <==> (b2.holds(w) && all_bool(w.cur, off.lane_sel as int, 64)));
            assert(b4.holds(w) <==> (b3.holds(w) && is_zero(
                sum_cells(w.cur, off.lane_sel as int, 64) - w.cur[off.is_active as int],
            )));
            assert(b5.holds(w) <==> (b4.holds(w) && all_ternary(w.cur, off.q as int, 32)));
            assert(b6.holds(w) <==> (b5.holds(w) && parity_block(
                parity,
                gate.value(w),
                selected.value(w),
                w.cur,
            )));
            assert(b7.holds(w) <==> (b6.holds(w) && (w.first ==> all_zero(
                w.cur,
                off.xr as int,
                64,
            ))));
        }
    }
}

/// A register of zeros.
pub open spec fn empty_register() -> Seq<u32> {
    Seq::new(64, |s: int| 0u32)
}

/// A register after four words are folded into one lane.
pub open spec fn fold_lane(xr: Seq<u32>, lane: int, in4: Seq<i32>) -> Seq<u32> {
    xr.update(lane, xr[lane] ^ xor_fold(in4))
}

/// The register after a list of folds, from zero.
pub open spec fn stripe_fold(events: Seq<(usize, [i32; IN_LEN])>) -> Seq<u32>
    decreases events.len(),
{
    if events.len() == 0 {
        empty_register()
    } else {
        let (lane, in4) = events.last();
        fold_lane(stripe_fold(events.drop_last()), lane as int, in4@)
    }
}

/// Every lane of a list of folds exists.
pub open spec fn lanes_ok(events: Seq<(usize, [i32; IN_LEN])>) -> bool {
    forall|i: int| 0 <= i < events.len() ==> (#[trigger] events[i]).0 < 64
}

/// What a row of a trace does.
pub ghost enum SxRow {
    /// Folds four words into a lane, from zero where `reset` is set.
    Active { lane: int, in4: Seq<i32>, reset: bool },
    /// Holds the register, or clears it where `reset` is set.
    Idle { reset: bool },
}

impl SxRow {
    /// The register entering the row is zero.
    pub open spec fn resets(self) -> bool {
        match self {
            SxRow::Active { reset, .. } => reset,
            SxRow::Idle { reset } => reset,
        }
    }
}

/// The register that leaves the last row of a schedule.
pub open spec fn register_after(sched: Seq<SxRow>) -> Seq<u32>
    decreases sched.len(),
{
    if sched.len() == 0 {
        empty_register()
    } else {
        let before = if sched.last().resets() {
            empty_register()
        } else {
            register_after(sched.drop_last())
        };
        match sched.last() {
            SxRow::Idle { .. } => before,
            SxRow::Active { lane, in4, .. } => fold_lane(before, lane, in4),
        }
    }
}

/// The register that enters a row: zero on a reset row.
pub open spec fn register_entering(sched: Seq<SxRow>, r: int) -> Seq<u32> {
    if r < sched.len() && sched[r].resets() {
        empty_register()
    } else if r < sched.len() {
        register_after(sched.take(r))
    } else {
        register_after(sched)
    }
}

/// The schedule of a list of folds in one segment.
pub open spec fn plain_schedule(events: Seq<(usize, [i32; IN_LEN])>) -> Seq<SxRow> {
    Seq::new(
        events.len(),
        |i: int| SxRow::Active { lane: events[i].0 as int, in4: events[i].1@, reset: false },
    )
}

/// The schedule of one segment: its folds, the first of which resets, and a
/// row that holds the segment's register.
pub open spec fn segment_schedule(events: Seq<(usize, [i32; IN_LEN])>) -> Seq<SxRow> {
    Seq::new(
        events.len(),
        |i: int| SxRow::Active { lane: events[i].0 as int, in4: events[i].1@, reset: i == 0 },
    ).push(SxRow::Idle { reset: false })
}

/// The schedule of a list of segments.
pub open spec fn segments_schedule(segments: Seq<Seq<(usize, [i32; IN_LEN])>>) -> Seq<SxRow>
    decreases segments.len(),
{
    if segments.len() == 0 {
        Seq::empty()
    } else {
        segments_schedule(segments.drop_last()) + segment_schedule(segments.last())
    }
}

/// A row holds what its place in a schedule asks for.
pub open spec fn row_matches(row: Seq<u64>, kind: SxRow, xr: Seq<u32>) -> bool {
    &&& row.len() == cols::ROW_W
    &&& canonical(row)
    &&& forall|j: int|
        cols::XR <= j < cols::XR + 64 ==> (#[trigger] row[j]) == xr[j - cols::XR]
    &&& match kind {
        SxRow::Active { lane, in4, reset } => {
            &&& row[cols::IS_ACTIVE as int] == 1
            &&& one_hot(row, cols::LANE_SEL as int, 64, lane)
            &&& parity_filled(StripeXorOffsets::local().parity(), row, xr[lane], in4)
            &&& row[cols::SEG_RESET as int] == if reset {
                1int
            } else {
                0int
            }
        },
        SxRow::Idle { reset } => {
            &&& row[cols::SEG_RESET as int] == if reset {
                1int
            } else {
                0int
            }
            &&& forall|j: int|
                0 <= j < cols::SEG_RESET && !(cols::XR <= j < cols::XR + 64)
                    ==> #[trigger] row[j] == 0
        },
    }
}

/// A trace runs a schedule: each row holds what the schedule asks for, and the
/// rows after it hold the last register.
pub open spec fn trace_runs(m: RowMajorMatrix, sched: Seq<SxRow>) -> bool {
    &&& m.wf()
    &&& m.width == cols::ROW_W
    &&& m.spec_height() == padded_height(sched.len() + 1)
    &&& forall|r: int|
        0 <= r < m.spec_height() ==> row_matches(
            #[trigger] m.row(r),
            if r < sched.len() {
                sched[r]
            } else {
                SxRow::Idle { reset: false }
            },
            register_entering(sched, r),
        )
}

/// The exclusive or of the words of each row, lane by lane, in order of
/// visitation.
pub fn ref_stripe_xor(events: &[(usize, [i32; IN_LEN])]) -> (xr: [u32; STATE_LEN])
    requires
        lanes_ok(events@),
    ensures
        xr@ == stripe_fold(events@),
{
    let mut xr: [u32; STATE_LEN] = [0u32;64];
    let mut n: usize = 0;
    assert(xr@ =~= empty_register());
    assert(events@.take(0) =~= Seq::empty());
    while n < events.len()
        invariant
            n <= events@.len(),
            lanes_ok(events@),
            xr@ == stripe_fold(events@.take(n as int)),
        decreases events@.len() - n,
    {
        let (lane, in4) = events[n];
        let mut x: u32 = 0;
        let mut c: usize = 0;
        assert(in4@.take(0) =~= Seq::empty());
        while c < IN_LEN
            invariant
                c <= 4,
                x == xor_fold(in4@.take(c as int)),
            decreases 4 - c,
        {
            proof {
                crate::bits::lemma_xor_fold_step(in4@, c as int);
            }
            x = x ^ (#[verifier::truncate] (in4[c] as u32));
            c = c + 1;
        }
        assert(in4@.take(4) =~= in4@);
        assert(events@[n as int].0 < 64);
        xr[lane] = xr[lane] ^ x;
        assert(events@.take(n + 1).drop_last() =~= events@.take(n as int));
        n = n + 1;
    }
    assert(events@.take(n as int) =~= events@);
    xr
}

/// Writes a register into a row.
fn set_register(row: &mut Vec<Val>, xr: &[u32; STATE_LEN])
    requires
        old(row)@.len() == cols::ROW_W,
    ensures
        final(row)@.len() == cols::ROW_W,
        forall|j: int|
            cols::XR <= j < cols::XR + 64 ==> (#[trigger] final(row)@[j]) == xr@[j - cols::XR],
        forall|j: int|
            0 <= j < cols::ROW_W && !(cols::XR <= j < cols::XR + 64) ==> final(row)@[j] == old(
                row,
            )@[j],
{
    let mut s: usize = 0;
    while s < STATE_LEN
        invariant
            s <= 64,
            row@.len() == cols::ROW_W,
            old(row)@.len() == cols::ROW_W,
            forall|j: int|
                cols::XR <= j < cols::XR + s ==> (#[trigger] row@[j]) == xr@[j - cols::XR],
            forall|j: int|
                0 <= j < cols::ROW_W && !(cols::XR <= j < cols::XR + s) ==> row@[j] == old(row)@[j],
        decreases 64 - s,
    {
        row[cols::XR + s] = val_of_u32(xr[s]);
        s = s + 1;
    }
}

/// A row that holds a register.
fn idle_row(xr: &[u32; STATE_LEN]) -> (row: Vec<Val>)
    ensures
        row_matches(row@, SxRow::Idle { reset: false }, xr@),
{
    let mut row = zero_row(cols::ROW_W);
    set_register(&mut row, xr);
    row
}

/// A row that folds four words into a lane, and the lane's new value.
fn active_row(lane: usize, in4: &[i32; IN_LEN], xr: &[u32; STATE_LEN], reset: bool) -> (r: (
    Vec<Val>,
    u32,
))
    requires
        lane < 64,
    ensures
        row_matches(r.0@, SxRow::Active { lane: lane as int, in4: in4@, reset }, xr@),
        r.1 == xr@[lane as int] ^ xor_fold(in4@),
{
    let mut row = zero_row(cols::ROW_W);
    row[cols::IS_ACTIVE] = val_of_u32(1);
    row[cols::LANE_SEL + lane] = val_of_u32(1);
    if reset {
        row[cols::SEG_RESET] = val_of_u32(1);
    }
    set_register(&mut row, xr);
    let ghost before = row@;
    let parity = ParityOffsets {
        in_cells: cols::IN,
        in_bits: cols::IN_BITS,
        op_bits: cols::XR_SEL_BITS,
        new: cols::NEW_SEL,
        new_bits: cols::NEW_SEL_BITS,
        q: cols::Q,
    };
    let new: u32 = fill_parity_block(&mut row, &parity, in4, xr[lane]);
    proof {
        assert(canonical(before));
        assert forall|j: int|
            0 <= j < cols::ROW_W && !crate::chips::parity::in_block(
                parity,
                j,
            ) implies #[trigger] row@[j] == before[j] by {}
    }
    (row, new)
}

/// The trace of a list of folds: one active row per fold, then rows that hold
/// the final register, up to a power of two of at least four rows.
pub fn build_trace(events: &[(usize, [i32; IN_LEN])]) -> (m: RowMajorMatrix)
    requires
        events@.len() > 0,
        lanes_ok(events@),
        padded_height(events@.len() + 1) * cols::ROW_W <= usize::MAX,
    ensures
        trace_runs(m, plain_schedule(events@)),
{
    let ghost sched = plain_schedule(events@);
    let ghost h = padded_height(events@.len() + 1);
    proof {
        padded_height_is_least_power_of_two(events@.len() + 1);
        assert(h <= h * cols::ROW_W) by (nonlinear_arith)
            requires
                h >= 0,
        ;
    }
    let n: usize = padded_len(events.len() + 1);
    let mut values: Vec<Val> = Vec::new();
    let ghost mut rows: Seq<Seq<u64>> = Seq::empty();
    let mut xr: [u32; STATE_LEN] = [0u32;64];
    let mut i: usize = 0;
    assert(xr@ =~= empty_register());
    assert(sched.take(0) =~= Seq::empty());
    while i < events.len()
        invariant
            i <= events@.len(),
            lanes_ok(events@),
            sched == plain_schedule(events@),
            xr@ == register_after(sched.take(i as int)),
            rows.len() == i,
            values@ == flatten_rows(rows),
            forall|r: int|
                0 <= r < i ==> row_matches(
                    #[trigger] rows[r],
                    sched[r],
                    register_entering(sched, r),
                ),
        decreases events@.len() - i,
    {
        let (lane, in4) = events[i];
        assert(events@[i as int].0 < 64);
        let (row, new) = active_row(lane, &in4, &xr, false);
        push_row(&mut values, &row);
        proof {
            lemma_flatten_push(rows, row@);
            assert(sched.take(i + 1).drop_last() =~= sched.take(i as int));
            assert(sched.take(i + 1).last() == sched[i as int]);
            rows = rows.push(row@);
        }
        xr[lane] = new;
        i = i + 1;
    }
    assert(sched.take(i as int) =~= sched);
    while i < n
        invariant
            events@.len() <= i <= n,
            sched == plain_schedule(events@),
            xr@ == register_after(sched),
            rows.len() == i,
            values@ == flatten_rows(rows),
            forall|r: int|
                0 <= r < i ==> row_matches(
                    #[trigger] rows[r],
                    if r < sched.len() {
                        sched[r]
                    } else {
                        SxRow::Idle { reset: false }
                    },
                    register_entering(sched, r),
                ),
        decreases n - i,
    {
        let row = idle_row(&xr);
        push_row(&mut values, &row);
        proof {
            lemma_flatten_push(rows, row@);
            rows = rows.push(row@);
        }
        i = i + 1;
    }
    let m = RowMajorMatrix { values, width: cols::ROW_W };
    proof {
        lemma_matrix_rows(m, rows);
        assert forall|r: int| 0 <= r < m.spec_height() implies row_matches(
            #[trigger] m.row(r),
            if r < sched.len() {
                sched[r]
            } else {
                SxRow::Idle { reset: false }
            },
            register_entering(sched, r),
        ) by {
            assert(m.row(r) == rows[r]);
        }
    }
    m
}

/// The segments as sequences.
pub open spec fn segment_views(segments: Seq<&[(usize, [i32; IN_LEN])]>) -> Seq<
    Seq<(usize, [i32; IN_LEN])>,
> {
    Seq::new(segments.len(), |g: int| segments[g]@)
}

/// The rows that the first segments take.
pub open spec fn rows_before(segments: Seq<Seq<(usize, [i32; IN_LEN])>>, g: int) -> nat {
    segments_schedule(segments.take(g)).len()
}

/// One more segment adds its folds and one row.
pub proof fn lemma_segments_step(segments: Seq<Seq<(usize, [i32; IN_LEN])>>, g: int)
    requires
        0 <= g < segments.len(),
    ensures
        segments_schedule(segments.take(g + 1)) == segments_schedule(segments.take(g))
            + segment_schedule(segments[g]),
        rows_before(segments, g + 1) == rows_before(segments, g) + segments[g].len() + 1,
{
    assert(segments.take(g + 1).drop_last() =~= segments.take(g));
}

/// A later segment starts no earlier.
pub proof fn lemma_rows_monotone(segments: Seq<Seq<(usize, [i32; IN_LEN])>>, g: int, k: int)
    requires
        0 <= g <= k <= segments.len(),
    ensures
        rows_before(segments, g) + (k - g) <= rows_before(segments, k),
        segments_schedule(segments.take(k)).take(rows_before(segments, g) as int)
            == segments_schedule(segments.take(g)),
    decreases k - g,
{
    if g < k {
        lemma_rows_monotone(segments, g, k - 1);
        lemma_segments_step(segments, k - 1);
        let shorter = segments_schedule(segments.take(k - 1));
        assert(segments_schedule(segments.take(k)).take(rows_before(segments, g) as int)
            =~= shorter.take(rows_before(segments, g) as int));
    } else {
        assert(segments_schedule(segments.take(k)).take(rows_before(segments, g) as int)
            =~= segments_schedule(segments.take(g)));
    }
}

/// The rows that a list of segments takes, one for each fold and one for each
/// segment.
fn count_rows(segments: &[&[(usize, [i32; IN_LEN])]]) -> (n: usize)
    requires
        segments_schedule(segment_views(segments@)).len() < usize::MAX,
    ensures
        n == segments_schedule(segment_views(segments@)).len(),
{
    let ghost views = segment_views(segments@);
    let mut n: usize = 0;
    let mut g: usize = 0;
    assert(views.take(0) =~= Seq::empty());
    assert(views.take(views.len() as int) =~= views);
    while g < segments.len()
        invariant
            g <= segments@.len(),
            views == segment_views(segments@),
            views.take(views.len() as int) == views,
            segments_schedule(views).len() < usize::MAX,
            n == rows_before(views, g as int),
        decreases segments@.len() - g,
    {
        proof {
            lemma_segments_step(views, g as int);
            lemma_rows_monotone(views, g + 1, views.len() as int);
        }
        n = n + segments[g].len() + 1;
        g = g + 1;
    }
    n
}

/// The trace of a list of segments, and for each segment the row that holds
/// its final register.
pub fn build_trace_segmented(segments: &[&[(usize, [i32; IN_LEN])]]) -> (r: (
    RowMajorMatrix,
    Vec<usize>,
))
    requires
        segments@.len() > 0,
        exists|g: int| 0 <= g < segments@.len() && (#[trigger] segments@[g])@.len() > 0,
        forall|g: int| 0 <= g < segments@.len() ==> lanes_ok((#[trigger] segments@[g])@),
        padded_height(segments_schedule(segment_views(segments@)).len() + 1) * cols::ROW_W
            <= usize::MAX,
    ensures
        trace_runs(r.0, segments_schedule(segment_views(segments@))),
        r.1@.len() == segments@.len(),
        forall|g: int|
            0 <= g < segments@.len() ==> (#[trigger] r.1@[g]) == rows_before(
                segment_views(segments@),
                g + 1,
            ) - 1,
{
    let ghost views = segment_views(segments@);
    let ghost sched = segments_schedule(views);
    let ghost h = padded_height(sched.len() + 1);
    proof {
        padded_height_is_least_power_of_two(sched.len() + 1);
        assert(h <= h * cols::ROW_W) by (nonlinear_arith)
            requires
                h >= 0,
        ;
        assert(views.take(views.len() as int) =~= views);
        assert(views.take(0) =~= Seq::empty());
        assert(sched.take(0) =~= Seq::empty());
    }
    let n: usize = padded_len(count_rows(segments) + 1);
    let mut values: Vec<Val> = Vec::new();
    let ghost mut rows: Seq<Seq<u64>> = Seq::empty();
    let mut xr: [u32; STATE_LEN] = [0u32;64];
    let mut gap_rows: Vec<usize> = Vec::new();
    let mut row_idx: usize = 0;
    let mut g: usize = 0;
    assert(xr@ =~= empty_register());
    while g < segments.len()
        invariant
            g <= segments@.len(),
            views == segment_views(segments@),
            views.take(views.len() as int) == views,
            sched == segments_schedule(views),
            sched.len() < n,
            forall|k: int| 0 <= k < segments@.len() ==> lanes_ok((#[trigger] segments@[k])@),
            row_idx == rows_before(views, g as int),
            xr@ == register_after(sched.take(row_idx as int)),
            rows.len() == row_idx,
            values@ == flatten_rows(rows),
            forall|r: int|
                0 <= r < row_idx ==> row_matches(
                    #[trigger] rows[r],
                    sched[r],
                    register_entering(sched, r),
                ),
            gap_rows@.len() == g,
            forall|k: int|
                0 <= k < g ==> (#[trigger] gap_rows@[k]) == rows_before(views, k + 1) - 1,
        decreases segments@.len() - g,
    {
        let seg = segments[g];
        let ghost start = row_idx as int;
        proof {
            lemma_segments_step(views, g as int);
            lemma_rows_monotone(views, g as int, views.len() as int);
            lemma_rows_monotone(views, g + 1, views.len() as int);
            let upto = segments_schedule(views.take(g + 1));
            assert(sched.take(upto.len() as int) == upto);
            assert forall|k: int| 0 <= k <= seg@.len() implies #[trigger] sched[start + k]
                == segment_schedule(seg@)[k] by {
                assert(upto[start + k] == segment_schedule(seg@)[k]);
                assert(sched.take(upto.len() as int)[start + k] == sched[start + k]);
            }
        }
        let mut ev: usize = 0;
        while ev < seg.len()
            invariant
                ev <= seg@.len(),
                lanes_ok(seg@),
                row_idx == start + ev,
                start + seg@.len() + 1 <= sched.len(),
                sched.len() < n,
                forall|k: int|
                    0 <= k <= seg@.len() ==> #[trigger] sched[start + k] == segment_schedule(
                        seg@,
                    )[k],
                xr@ == register_after(sched.take(row_idx as int)),
                rows.len() == row_idx,
                values@ == flatten_rows(rows),
                forall|r: int|
                    0 <= r < row_idx ==> row_matches(
                        #[trigger] rows[r],
                        sched[r],
                        register_entering(sched, r),
                    ),
            decreases seg@.len() - ev,
        {
            let (lane, in4) = seg[ev];
            assert(seg@[ev as int].0 < 64);
            if ev == 0 {
                xr = [0u32;64];
                assert(xr@ =~= empty_register());
            }
            proof {
                assert(sched[start + ev] == segment_schedule(seg@)[ev as int]);
                assert(sched.take(row_idx + 1).drop_last() =~= sched.take(row_idx as int));
                assert(sched.take(row_idx + 1).last() == sched[row_idx as int]);
            }
            let (row, new) = active_row(lane, &in4, &xr, ev == 0);
            push_row(&mut values, &row);
            proof {
                lemma_flatten_push(rows, row@);
                rows = rows.push(row@);
            }
            xr[lane] = new;
            row_idx = row_idx + 1;
            ev = ev + 1;
        }
        proof {
            assert(sched[start + seg@.len()] == segment_schedule(seg@)[seg@.len() as int]);
            assert(sched.take(row_idx + 1).drop_last() =~= sched.take(row_idx as int));
            assert(sched.take(row_idx + 1).last() == sched[row_idx as int]);
        }
        let row = idle_row(&xr);
        push_row(&mut values, &row);
        proof {
            lemma_flatten_push(rows, row@);
            rows = rows.push(row@);
        }
        gap_rows.push(row_idx);
        row_idx = row_idx + 1;
        g = g + 1;
    }
    assert(sched.take(row_idx as int) =~= sched);
    while row_idx < n
        invariant
            sched.len() <= row_idx <= n,
            xr@ == register_after(sched),
            rows.len() == row_idx,
            values@ == flatten_rows(rows),
            forall|r: int|
                0 <= r < row_idx ==> row_matches(
                    #[trigger] rows[r],
                    if r < sched.len() {
                        sched[r]
                    } else {
                        SxRow::Idle { reset: false }
                    },
                    register_entering(sched, r),
                ),
        decreases n - row_idx,
    {
        let row = idle_row(&xr);
        push_row(&mut values, &row);
        proof {
            lemma_flatten_push(rows, row@);
            rows = rows.push(row@);
        }
        row_idx = row_idx + 1;
    }
    let m = RowMajorMatrix { values, width: cols::ROW_W };
    proof {
        lemma_matrix_rows(m, rows);
        assert forall|r: int| 0 <= r < m.spec_height() implies row_matches(
            #[trigger] m.row(r),
            if r < sched.len() {
                sched[r]
            } else {
                SxRow::Idle { reset: false }
            },
            register_entering(sched, r),
        ) by {
            assert(m.row(r) == rows[r]);
        }
    }
    (m, gap_rows)
}

/// The register that a row of a trace carries, each lane cut to 32 bits.
pub fn register_at_row(trace: &RowMajorMatrix, row: usize) -> (xr: [u32; STATE_LEN])
    requires
        row * cols::ROW_W + cols::XR + 64 <= trace.values@.len(),
    ensures
        forall|s: int|
            0 <= s < 64 ==> #[trigger] xr@[s] == trace.values@[row * cols::ROW_W + cols::XR
                + s] as u32,
{
    let len: usize = trace.values.len();
    assert(row * cols::ROW_W <= len);
    let base: usize = row * cols::ROW_W;
    let mut xr: [u32; STATE_LEN] = [0u32;64];
    let mut s: usize = 0;
    while s < STATE_LEN
        invariant
            s <= 64,
            len == trace.values@.len(),
            base == row * cols::ROW_W,
            base + cols::XR + 64 <= len,
            forall|i: int|
                0 <= i < s ==> #[trigger] xr@[i] == trace.values@[row * cols::ROW_W + cols::XR
                    + i] as u32,
        decreases 64 - s,
    {
        xr[s] = #[verifier::truncate] (trace.values[base + cols::XR + s] as u32);
        s = s + 1;
    }
    xr
}

/// The register that the last row of a trace carries, each lane cut to 32
/// bits.
pub fn final_register(trace: &RowMajorMatrix) -> (xr: [u32; STATE_LEN])
    requires
        trace.values@.len() >= cols::ROW_W,
    ensures
        forall|s: int|
            0 <= s < 64 ==> #[trigger] xr@[s] == trace.values@[(trace.values@.len()
                / cols::ROW_W as nat - 1) * cols::ROW_W + cols::XR + s] as u32,
{
    let h: usize = trace.values.len() / cols::ROW_W;
    proof {
        let len = trace.values@.len() as int;
        vstd::arithmetic::div_mod::lemma_fundamental_div_mod(len, cols::ROW_W as int);
        vstd::arithmetic::div_mod::lemma_mod_bound(len, cols::ROW_W as int);
        assert(cols::ROW_W == 359);
        assert(h == len / 359);
        assert(h >= 1);
        assert((h - 1) * 359 + 359 <= len);
    }
    register_at_row(trace, h - 1)
}

} // verus!
