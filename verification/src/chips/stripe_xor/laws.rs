//! What the stripe-xor constraints say of a trace.

use vstd::prelude::*;

use crate::air::{all_ternary, all_zero, dot_cells, is_bool, Window};
use crate::bits::xor_fold;
use crate::chips::parity::{
    inputs, lemma_boolean_passes, lemma_closed_gate, lemma_filled_block_holds, lemma_same_block,
    lemma_small_is_ternary, lemma_xor_fold_four, parity_block, parity_block_is_xor, parity_filled,
};
use crate::chips::selector::{
    hot_index, lemma_none_hot_dot, lemma_none_hot_sum, lemma_one_hot_dot, lemma_one_hot_sum,
    none_hot, one_hot, selector_follows_flag,
};
use crate::chips::stripe_xor::{
    cols, empty_register, fold_lane, lane_rules, lanes_ok, lemma_rows_monotone,
    lemma_segments_step, passthrough_rule, plain_schedule, register_after, register_entering,
    reset_rules, row_matches, rows_before, segment_schedule, segments_schedule, stripe_fold,
    stripe_xor_rules, trace_runs, update_rules, StripeXorOffsets, SxRow, IN_LEN,
};
use crate::chips::tile_reduce::x_step;
use crate::field::{canonical, is_zero, lemma_feq_canonical};
use crate::matrix::{lemma_row_canonical, padded_height_is_least_power_of_two, RowMajorMatrix};
use crate::prime::bool_check_is_boolean;

verus! {

/// Where no reset flag is set, the segmented rules are the reset-free rules.
pub proof fn reset_free_rules_agree(off: StripeXorOffsets, w: Window)
    requires
        w.cur[off.seg_reset as int] == 0,
        w.nxt[off.seg_reset as int] == 0,
    ensures
        stripe_xor_rules(off, true, w) <==> stripe_xor_rules(off, false, w),
{
    assert(reset_rules(off, w)) by {
        assert forall|j: int| off.xr <= j < off.xr + 64 implies is_zero(
            w.cur[off.seg_reset as int] * (#[trigger] w.cur[j]),
        ) by {
            assert(0 * w.cur[j] == 0);
        }
        assert(is_bool(0)) by {
            assert(0 * (0 - 1) == 0);
        }
    }
    assert forall|s: int| 0 <= s < 64 implies (#[trigger] passthrough_rule(off, true, w, s)
        <==> passthrough_rule(off, false, w, s)) by {
        let idle = 1 - w.cur[off.lane_sel + s];
        let diff = w.nxt[off.xr + s] - w.cur[off.xr + s];
        assert((1 - 0) * idle * diff == idle * diff);
    }
    if update_rules(off, true, w) {
        assert forall|s: int| 0 <= s < 64 implies #[trigger] passthrough_rule(off, false, w, s) by {
            assert(passthrough_rule(off, true, w, s));
        }
    }
    if update_rules(off, false, w) {
        assert forall|s: int| 0 <= s < 64 implies #[trigger] passthrough_rule(off, true, w, s) by {
            assert(passthrough_rule(off, false, w, s));
        }
    }
}

/// The lane that an active row selects.
pub open spec fn selected_lane(off: StripeXorOffsets, row: Seq<u64>) -> int {
    hot_index(row, off.lane_sel as int, 64)
}

/// What a row of any trace does.
pub open spec fn row_kind(off: StripeXorOffsets, row: Seq<u64>) -> SxRow {
    if row[off.is_active as int] == 1 {
        SxRow::Active {
            lane: selected_lane(off, row),
            in4: inputs(off.parity(), row),
            reset: row[off.seg_reset as int] == 1,
        }
    } else {
        SxRow::Idle { reset: row[off.seg_reset as int] == 1 }
    }
}

/// What the first rows of a trace do.
pub open spec fn trace_schedule(off: StripeXorOffsets, m: RowMajorMatrix, n: nat) -> Seq<SxRow> {
    Seq::new(n, |r: int| row_kind(off, m.row(r)))
}

/// A row carries a register.
pub open spec fn carries(off: StripeXorOffsets, row: Seq<u64>, xr: Seq<u32>) -> bool {
    forall|s: int| 0 <= s < 64 ==> row[off.xr + s] == #[trigger] xr[s]
}

/// One transition: an active row's selected lane becomes its exclusive or with
/// the four inputs, and every other lane passes unchanged into a row that does
/// not reset.
pub proof fn transition_folds_selected_lane(off: StripeXorOffsets, w: Window)
    requires
        w.canonical(),
        off.within(w.cur.len() as int),
        w.nxt.len() == w.cur.len(),
        stripe_xor_rules(off, true, w),
        !w.last,
    ensures
        w.cur[off.is_active as int] == 0 || w.cur[off.is_active as int] == 1,
        w.cur[off.is_active as int] == 1 ==> ({
            let lane = selected_lane(off, w.cur);
            &&& 0 <= lane < 64
            &&& one_hot(w.cur, off.lane_sel as int, 64, lane)
            &&& w.cur[off.xr + lane] <= u32::MAX
            &&& w.nxt[off.xr + lane] == (w.cur[off.xr + lane] as u32) ^ xor_fold(
                inputs(off.parity(), w.cur),
            )
        }),
        w.nxt[off.seg_reset as int] == 0 ==> forall|s: int|
            0 <= s < 64 && !(w.cur[off.is_active as int] == 1 && s == selected_lane(off, w.cur))
                ==> #[trigger] w.nxt[off.xr + s] == w.cur[off.xr + s],
{
    let s = w.cur;
    let active = s[off.is_active as int] as int;
    assert(lane_rules(off, w));
    bool_check_is_boolean(active);
    selector_follows_flag(s, active, off.lane_sel as int, 64);
    assert(update_rules(off, true, w));
    let lane = selected_lane(off, s);
    if active == 1 {
        lemma_one_hot_dot(s, off.lane_sel as int, s, off.xr as int, 64, lane);
        lemma_one_hot_dot(s, off.lane_sel as int, w.nxt, off.xr as int, 64, lane);
        parity_block_is_xor(off.parity(), s[off.xr + lane] as int, s);
        lemma_feq_canonical(w.nxt[off.xr + lane] as int, s[off.new_sel as int] as int);
    }
    if w.nxt[off.seg_reset as int] == 0 {
        assert forall|i: int|
            0 <= i < 64 && !(active == 1 && i == lane) implies #[trigger] w.nxt[off.xr + i]
            == s[off.xr + i] by {
            assert(passthrough_rule(off, true, w, i));
            assert(s[off.lane_sel + i] == 0);
            let diff = w.nxt[off.xr + i] - s[off.xr + i];
            assert((1 - 0) * (1 - 0) * diff == diff);
            lemma_feq_canonical(w.nxt[off.xr + i] as int, s[off.xr + i] as int);
        }
    }
}

/// A reset row carries zero.
pub proof fn lemma_reset_row_zero(off: StripeXorOffsets, w: Window)
    requires
        w.canonical(),
        off.within(w.cur.len() as int),
        stripe_xor_rules(off, true, w),
    ensures
        w.cur[off.seg_reset as int] == 0 || w.cur[off.seg_reset as int] == 1,
        w.cur[off.seg_reset as int] == 1 || w.first ==> carries(off, w.cur, empty_register()),
{
    assert(reset_rules(off, w));
    bool_check_is_boolean(w.cur[off.seg_reset as int] as int);
    if w.cur[off.seg_reset as int] == 1 || w.first {
        assert forall|s: int| 0 <= s < 64 implies w.cur[off.xr + s] == #[trigger] empty_register()[
            s] by {
            let x = w.cur[off.xr + s] as int;
            if w.first {
                assert(is_zero(x));
            } else {
                assert(is_zero(1 * x));
            }
            lemma_feq_canonical(x, 0);
        }
    }
}

/// In any trace that meets the segmented rules, every row carries the register
/// that the rows above it fold together since the last reset: nothing else can
/// be in it.
pub proof fn register_is_determined(off: StripeXorOffsets, m: RowMajorMatrix, r: int)
    requires
        m.wf(),
        off.within(m.width as int),
        m.satisfies(|w: Window| stripe_xor_rules(off, true, w)),
        0 <= r < m.spec_height(),
    ensures
        carries(
            off,
            m.row(r),
            register_entering(trace_schedule(off, m, m.spec_height()), r),
        ),
    decreases r,
{
    let h = m.spec_height();
    let rule = |w: Window| stripe_xor_rules(off, true, w);
    let sched = trace_schedule(off, m, h);
    let w = m.window(r, Seq::empty(), Seq::empty());
    lemma_row_canonical(m, r);
    if r + 1 < h {
        lemma_row_canonical(m, r + 1);
    } else {
        lemma_row_canonical(m, 0);
    }
    assert(rule(w));
    lemma_reset_row_zero(off, w);
    if r == 0 {
        assert(sched.take(0) =~= Seq::empty());
    } else if !sched[r].resets() {
        register_is_determined(off, m, r - 1);
        lemma_row_canonical(m, r - 1);
        let v = m.window(r - 1, Seq::empty(), Seq::empty());
        assert(rule(v));
        lemma_reset_row_zero(off, v);
        transition_folds_selected_lane(off, v);
        assert(v.nxt == m.row(r));
        let before = register_entering(sched, r - 1);
        let after = register_after(sched.take(r));
        assert(sched.take(r).drop_last() =~= sched.take(r - 1));
        assert(sched.take(r).last() == sched[r - 1]);
        assert(sched[r - 1] == row_kind(off, v.cur));
        assert(after == match sched[r - 1] {
            SxRow::Idle { .. } => before,
            SxRow::Active { lane, in4, .. } => fold_lane(before, lane, in4),
        });
        lemma_trace_schedule_ok(off, m);
        lemma_register_len(sched, r - 1);
        assert forall|s: int| 0 <= s < 64 implies m.row(r)[off.xr + s] == #[trigger] after[s] by {
            assert(v.cur[off.xr + s] == before[s]);
            if !(v.cur[off.is_active as int] == 1 && s == selected_lane(off, v.cur)) {
                assert(v.nxt[off.xr + s] == v.cur[off.xr + s]);
            }
        }
    }
}

/// The lanes of a schedule exist, and each of its folds takes four words.
pub open spec fn schedule_ok(sched: Seq<SxRow>) -> bool {
    forall|r: int|
        0 <= r < sched.len() ==> (#[trigger] sched[r] matches SxRow::Active { lane, in4, .. } ==> 0
            <= lane < 64 && in4.len() == 4)
}

/// Every register of a schedule has 64 lanes.
pub proof fn lemma_register_len(sched: Seq<SxRow>, r: int)
    requires
        0 <= r <= sched.len(),
        schedule_ok(sched),
    ensures
        register_after(sched.take(r)).len() == 64,
        register_entering(sched, r).len() == 64,
    decreases r,
{
    if r > 0 {
        lemma_register_len(sched, r - 1);
        assert(sched.take(r).drop_last() =~= sched.take(r - 1));
        assert(sched.take(r).last() == sched[r - 1]);
    }
    if r == sched.len() {
        assert(sched.take(r) =~= sched);
    }
}

/// The rows of a trace that meets the rules select lanes that exist.
pub proof fn lemma_trace_schedule_ok(off: StripeXorOffsets, m: RowMajorMatrix)
    requires
        m.wf(),
        off.within(m.width as int),
        m.satisfies(|w: Window| stripe_xor_rules(off, true, w)),
    ensures
        schedule_ok(trace_schedule(off, m, m.spec_height())),
{
    let rule = |w: Window| stripe_xor_rules(off, true, w);
    let sched = trace_schedule(off, m, m.spec_height());
    assert forall|r: int| 0 <= r < sched.len() implies (#[trigger] sched[r] matches SxRow::Active {
        lane,
        in4,
        ..
    } ==> 0 <= lane < 64 && in4.len() == 4) by {
        let w = m.window(r, Seq::empty(), Seq::empty());
        lemma_row_canonical(m, r);
        assert(rule(w));
        assert(lane_rules(off, w));
        let active = w.cur[off.is_active as int] as int;
        bool_check_is_boolean(active);
        selector_follows_flag(w.cur, active, off.lane_sel as int, 64);
    }
}

/// The register after one more row of a schedule.
proof fn lemma_register_step(sched: Seq<SxRow>, r: int)
    requires
        0 <= r < sched.len(),
    ensures
        register_after(sched.take(r + 1)) == match sched[r] {
            SxRow::Idle { .. } => register_entering(sched, r),
            SxRow::Active { lane, in4, .. } => fold_lane(register_entering(sched, r), lane, in4),
        },
{
    assert(sched.take(r + 1).drop_last() =~= sched.take(r));
    assert(sched.take(r + 1).last() == sched[r]);
}

/// No active row stands directly before a reset row.
pub open spec fn separated(sched: Seq<SxRow>) -> bool {
    forall|r: int|
        0 <= r < sched.len() - 1 ==> (#[trigger] sched[r] is Active ==> !sched[r + 1].resets())
}

/// The rules that one row's cells meet by themselves.
proof fn lemma_row_rules(w: Window, kind: SxRow, xr: Seq<u32>)
    requires
        row_matches(w.cur, kind, xr),
        xr.len() == 64,
        kind.resets() ==> xr == empty_register(),
        w.first ==> xr == empty_register(),
        kind matches SxRow::Active { lane, in4, .. } ==> 0 <= lane < 64 && in4.len() == 4,
    ensures
        ({
            let off = StripeXorOffsets::local();
            &&& reset_rules(off, w)
            &&& lane_rules(off, w)
            &&& all_ternary(w.cur, off.q as int, 32)
            &&& parity_block(
                off.parity(),
                w.cur[off.is_active as int] as int,
                dot_cells(w.cur, off.lane_sel as int, w.cur, off.xr as int, 64),
                w.cur,
            )
            &&& w.first ==> all_zero(w.cur, off.xr as int, 64)
        }),
{
    let off = StripeXorOffsets::local();
    let s = w.cur;
    let reset = s[cols::SEG_RESET as int] as int;
    assert(is_bool(0) && is_bool(1)) by {
        assert(0 * (0 - 1) == 0);
        assert(1 * (1 - 1) == 0);
    }
    assert(reset_rules(off, w)) by {
        assert forall|j: int| off.xr <= j < off.xr + 64 implies is_zero(
            w.cur[off.seg_reset as int] * (#[trigger] w.cur[j]),
        ) by {
            let x = s[j] as int;
            if kind.resets() {
                assert(x == empty_register()[j - cols::XR]);
                assert(reset * 0 == 0);
            } else {
                assert(0 * x == 0);
            }
        }
    }
    if w.first {
        assert forall|j: int| off.xr <= j < off.xr + 64 implies is_zero(
            (#[trigger] w.cur[j]) as int,
        ) by {
            assert(s[j] == empty_register()[j - cols::XR]);
        }
    }
    match kind {
        SxRow::Active { lane, in4, .. } => {
            lemma_one_hot_sum(s, cols::LANE_SEL as int, 64, lane);
            lemma_boolean_passes(0, s, cols::LANE_SEL as int, 64);
            lemma_one_hot_dot(s, cols::LANE_SEL as int, s, cols::XR as int, 64, lane);
            assert(s[cols::XR + lane] == xr[lane]);
            lemma_filled_block_holds(off.parity(), s, xr[lane], in4);
        },
        SxRow::Idle { .. } => {
            assert(none_hot(s, cols::LANE_SEL as int, 64));
            lemma_none_hot_sum(s, cols::LANE_SEL as int, 64);
            lemma_boolean_passes(0, s, cols::LANE_SEL as int, 64);
            lemma_closed_gate(
                off.parity(),
                dot_cells(s, cols::LANE_SEL as int, s, cols::XR as int, 64),
                s,
            );
            assert forall|j: int| off.q <= j < off.q + 32 implies crate::air::is_ternary(
                (#[trigger] s[j]) as int,
            ) by {
                assert(s[j] == 0);
                assert(0 * (0 - 1) * (0 - 2) == 0);
            }
        },
    }
}

/// The rules on the row below.
proof fn lemma_update_rules(w: Window, kind: SxRow, xr: Seq<u32>, below: SxRow, next: Seq<u32>)
    requires
        row_matches(w.cur, kind, xr),
        row_matches(w.nxt, below, next),
        xr.len() == 64,
        kind matches SxRow::Active { lane, in4, .. } ==> 0 <= lane < 64 && in4.len() == 4,
        below.resets() ==> kind is Idle,
        !below.resets() ==> next == match kind {
            SxRow::Idle { .. } => xr,
            SxRow::Active { lane, in4, .. } => fold_lane(xr, lane, in4),
        },
    ensures
        update_rules(StripeXorOffsets::local(), true, w),
{
    let off = StripeXorOffsets::local();
    let s = w.cur;
    let t = w.nxt;
    match kind {
        SxRow::Active { lane, in4, .. } => {
            lemma_one_hot_dot(s, cols::LANE_SEL as int, t, cols::XR as int, 64, lane);
            assert(t[cols::XR + lane] == next[lane]);
            assert(s[cols::NEW_SEL as int] == xr[lane] ^ xor_fold(in4));
        },
        SxRow::Idle { .. } => {
            assert(none_hot(s, cols::LANE_SEL as int, 64));
            lemma_none_hot_dot(s, cols::LANE_SEL as int, t, cols::XR as int, 64);
            assert(s[cols::NEW_SEL as int] == 0);
        },
    }
    assert forall|i: int| 0 <= i < 64 implies #[trigger] passthrough_rule(off, true, w, i) by {
        let carry = 1 - t[cols::SEG_RESET as int];
        let idle = 1 - s[cols::LANE_SEL + i];
        let diff = t[cols::XR + i] - s[cols::XR + i];
        assert(s[cols::XR + i] == xr[i]);
        assert(t[cols::XR + i] == next[i]);
        if below.resets() {
            assert(carry == 0);
            assert(0 * idle * diff == 0);
        } else if kind matches SxRow::Active { lane, .. } && lane == i {
            assert(s[cols::LANE_SEL + i] == 1);
            assert(idle == 0);
            assert(carry * 0 * diff == 0) by (nonlinear_arith);
        } else {
            assert(diff == 0);
            assert(carry * idle * 0 == 0);
        }
    }
}

/// A trace that runs a schedule whose reset rows follow idle rows meets the
/// segmented rules.
pub proof fn scheduled_trace_meets_rules(m: RowMajorMatrix, sched: Seq<SxRow>)
    requires
        trace_runs(m, sched),
        schedule_ok(sched),
        separated(sched),
    ensures
        m.satisfies(|w: Window| stripe_xor_rules(StripeXorOffsets::local(), true, w)),
{
    let rule = |w: Window| stripe_xor_rules(StripeXorOffsets::local(), true, w);
    let h = m.spec_height() as int;
    padded_height_is_least_power_of_two(sched.len() + 1);
    assert forall|r: int| 0 <= r < m.spec_height() implies rule(
        #[trigger] m.window(r, Seq::empty(), Seq::empty()),
    ) by {
        let w = m.window(r, Seq::empty(), Seq::empty());
        let kind = if r < sched.len() {
            sched[r]
        } else {
            SxRow::Idle { reset: false }
        };
        let xr = register_entering(sched, r);
        assert(row_matches(m.row(r), kind, xr));
        if r < sched.len() {
            lemma_register_len(sched, r);
        } else {
            lemma_register_len(sched, sched.len() as int);
        }
        if r == 0 {
            assert(sched.take(0) =~= Seq::empty());
        }
        lemma_row_rules(w, kind, xr);
        if r + 1 < h {
            let below = if r + 1 < sched.len() {
                sched[r + 1]
            } else {
                SxRow::Idle { reset: false }
            };
            let next = register_entering(sched, r + 1);
            assert(row_matches(m.row(r + 1), below, next));
            if r < sched.len() {
                lemma_register_step(sched, r);
                if r + 1 == sched.len() {
                    assert(sched.take(r + 1) =~= sched);
                } else {
                    assert(sched[r] is Active ==> !sched[r + 1].resets());
                }
            }
            lemma_update_rules(w, kind, xr, below, next);
        }
    }
}

/// The register of a single-segment schedule.
proof fn lemma_plain_register(events: Seq<(usize, [i32; IN_LEN])>, n: int)
    requires
        0 <= n <= events.len(),
    ensures
        register_after(plain_schedule(events).take(n)) == stripe_fold(events.take(n)),
    decreases n,
{
    let sched = plain_schedule(events);
    if n == 0 {
        assert(sched.take(0) =~= Seq::empty());
        assert(events.take(0) =~= Seq::empty());
    } else {
        lemma_plain_register(events, n - 1);
        lemma_register_step(sched, n - 1);
        assert(events.take(n).drop_last() =~= events.take(n - 1));
        assert(events.take(n).last() == events[n - 1]);
    }
}

/// The trace of a list of folds meets the rules, with and without resets in
/// force, and its last row carries the exclusive or of the folds lane by lane.
pub proof fn built_trace_is_sound(m: RowMajorMatrix, events: Seq<(usize, [i32; IN_LEN])>)
    requires
        lanes_ok(events),
        trace_runs(m, plain_schedule(events)),
    ensures
        m.satisfies(|w: Window| stripe_xor_rules(StripeXorOffsets::local(), true, w)),
        m.satisfies(|w: Window| stripe_xor_rules(StripeXorOffsets::local(), false, w)),
        carries(StripeXorOffsets::local(), m.row(m.spec_height() - 1), stripe_fold(events)),
{
    let off = StripeXorOffsets::local();
    let sched = plain_schedule(events);
    let h = m.spec_height() as int;
    padded_height_is_least_power_of_two(sched.len() + 1);
    assert(schedule_ok(sched)) by {
        assert forall|r: int| 0 <= r < sched.len() implies (
        #[trigger] sched[r] matches SxRow::Active { lane, in4, .. } ==> 0 <= lane < 64 && in4.len()
            == 4) by {
            assert(events[r].0 < 64);
        }
    }
    scheduled_trace_meets_rules(m, sched);
    let rule = |w: Window| stripe_xor_rules(off, true, w);
    let free = |w: Window| stripe_xor_rules(off, false, w);
    assert forall|r: int| 0 <= r < m.spec_height() implies free(
        #[trigger] m.window(r, Seq::empty(), Seq::empty()),
    ) by {
        let w = m.window(r, Seq::empty(), Seq::empty());
        assert(rule(w));
        assert(row_matches(
            m.row(r),
            if r < sched.len() {
                sched[r]
            } else {
                SxRow::Idle { reset: false }
            },
            register_entering(sched, r),
        ));
        let k = if r + 1 < h {
            r + 1
        } else {
            0
        };
        assert(row_matches(
            m.row(k),
            if k < sched.len() {
                sched[k]
            } else {
                SxRow::Idle { reset: false }
            },
            register_entering(sched, k),
        ));
        reset_free_rules_agree(off, w);
    }
    lemma_plain_register(events, events.len() as int);
    assert(events.take(events.len() as int) =~= events);
    assert(sched.take(sched.len() as int) =~= sched);
    let last = m.row(h - 1);
    assert(row_matches(last, SxRow::Idle { reset: false }, register_entering(sched, h - 1)));
    assert forall|s: int| 0 <= s < 64 implies last[off.xr + s] == #[trigger] stripe_fold(events)[
        s] by {
        assert(last[cols::XR + s] == stripe_fold(events)[cols::XR + s - cols::XR]);
    }
}

/// The rows of a segment within the whole schedule.
proof fn lemma_segment_rows(segments: Seq<Seq<(usize, [i32; IN_LEN])>>, g: int)
    requires
        0 <= g < segments.len(),
    ensures
        rows_before(segments, g) + segments[g].len() + 1 <= segments_schedule(segments).len(),
        rows_before(segments, g + 1) == rows_before(segments, g) + segments[g].len() + 1,
        forall|k: int|
            0 <= k <= segments[g].len() ==> #[trigger] segments_schedule(segments)[rows_before(
                segments,
                g,
            ) + k] == segment_schedule(segments[g])[k],
{
    let n = segments.len() as int;
    let sched = segments_schedule(segments);
    let start = rows_before(segments, g) as int;
    lemma_segments_step(segments, g);
    lemma_rows_monotone(segments, g + 1, n);
    assert(segments.take(n) =~= segments);
    let upto = segments_schedule(segments.take(g + 1));
    assert forall|k: int| 0 <= k <= segments[g].len() implies #[trigger] sched[start + k]
        == segment_schedule(segments[g])[k] by {
        assert(sched.take(upto.len() as int)[start + k] == sched[start + k]);
        assert(upto[start + k] == segment_schedule(segments[g])[k]);
    }
}

/// Within a segment the register is the fold of the segment's own events.
proof fn lemma_segment_register(segments: Seq<Seq<(usize, [i32; IN_LEN])>>, g: int, k: int)
    requires
        0 <= g < segments.len(),
        1 <= k <= segments[g].len(),
    ensures
        register_after(segments_schedule(segments).take(rows_before(segments, g) + k))
            == stripe_fold(segments[g].take(k)),
    decreases k,
{
    let sched = segments_schedule(segments);
    let seg = segments[g];
    let start = rows_before(segments, g) as int;
    lemma_segment_rows(segments, g);
    let n = start + (k - 1);
    lemma_register_step(sched, n);
    assert(sched[start + (k - 1)] == segment_schedule(seg)[k - 1]);
    assert(sched[n] == SxRow::Active {
        lane: seg[k - 1].0 as int,
        in4: seg[k - 1].1@,
        reset: k == 1,
    });
    assert(sched.take(n + 1) == sched.take(start + k));
    assert(stripe_fold(seg.take(k)) == fold_lane(
        stripe_fold(seg.take(k).drop_last()),
        seg[k - 1].0 as int,
        seg[k - 1].1@,
    ));
    assert(seg.take(k).drop_last() =~= seg.take(k - 1));
    assert(seg.take(k).last() == seg[k - 1]);
    if k == 1 {
        assert(seg.take(0) =~= Seq::empty());
    } else {
        lemma_segment_register(segments, g, k - 1);
    }
}

/// A schedule of segments resets only after idle rows, and its lanes exist.
proof fn lemma_segments_schedule_ok(segments: Seq<Seq<(usize, [i32; IN_LEN])>>)
    requires
        forall|g: int| 0 <= g < segments.len() ==> lanes_ok(#[trigger] segments[g]),
    ensures
        schedule_ok(segments_schedule(segments)),
        separated(segments_schedule(segments)),
        segments.len() > 0 ==> segments_schedule(segments).last() == (SxRow::Idle {
            reset: false,
        }),
        segments.len() > 0 ==> segments_schedule(segments).len() > 0,
    decreases segments.len(),
{
    if segments.len() > 0 {
        let init = segments.drop_last();
        let seg = segments.last();
        assert forall|g: int| 0 <= g < init.len() implies lanes_ok(#[trigger] init[g]) by {
            assert(init[g] == segments[g]);
        }
        assert(lanes_ok(segments[segments.len() - 1]));
        lemma_segments_schedule_ok(init);
        let a = segments_schedule(init);
        let b = segment_schedule(seg);
        let sched = segments_schedule(segments);
        assert(sched == a + b);
        assert forall|r: int| 0 <= r < sched.len() implies (
        #[trigger] sched[r] matches SxRow::Active { lane, in4, .. } ==> 0 <= lane < 64 && in4.len()
            == 4) by {
            if r < a.len() {
                assert(sched[r] == a[r]);
            } else {
                assert(sched[r] == b[r - a.len()]);
                if r - a.len() < seg.len() {
                    assert(seg[r - a.len()].0 < 64);
                }
            }
        }
        assert forall|r: int| 0 <= r < sched.len() - 1 && #[trigger] sched[r] is Active implies
            !sched[r + 1].resets() by {
            if r + 1 < a.len() {
                assert(sched[r] == a[r]);
                assert(sched[r + 1] == a[r + 1]);
            } else if r + 1 == a.len() {
                assert(sched[r] == a[r]);
                assert(a[r] == a.last());
            } else {
                assert(sched[r] == b[r - a.len()]);
                assert(sched[r + 1] == b[r + 1 - a.len()]);
            }
        }
    }
}

/// The trace of a list of segments meets the rules, and the row that closes a
/// segment carries the fold of that segment's own events: segments do not
/// reach into one another.
pub proof fn segments_are_isolated(
    m: RowMajorMatrix,
    segments: Seq<Seq<(usize, [i32; IN_LEN])>>,
    g: int,
)
    requires
        forall|k: int| 0 <= k < segments.len() ==> lanes_ok(#[trigger] segments[k]),
        trace_runs(m, segments_schedule(segments)),
        0 <= g < segments.len(),
        segments[g].len() > 0,
    ensures
        m.satisfies(|w: Window| stripe_xor_rules(StripeXorOffsets::local(), true, w)),
        rows_before(segments, g + 1) - 1 < m.spec_height(),
        carries(
            StripeXorOffsets::local(),
            m.row(rows_before(segments, g + 1) - 1),
            stripe_fold(segments[g]),
        ),
{
    let off = StripeXorOffsets::local();
    let sched = segments_schedule(segments);
    let seg = segments[g];
    let r = rows_before(segments, g + 1) - 1;
    padded_height_is_least_power_of_two(sched.len() + 1);
    lemma_segments_schedule_ok(segments);
    scheduled_trace_meets_rules(m, sched);
    lemma_segment_rows(segments, g);
    lemma_segment_register(segments, g, seg.len() as int);
    assert(seg.take(seg.len() as int) =~= seg);
    assert(sched[rows_before(segments, g) + seg.len() as int] == segment_schedule(seg)[seg.len() as int]);
    let row = m.row(r);
    assert(row_matches(row, sched[r], register_entering(sched, r)));
    assert forall|s: int| 0 <= s < 64 implies row[off.xr + s] == #[trigger] stripe_fold(seg)[
        s] by {
        assert(row[cols::XR + s] == stripe_fold(seg)[cols::XR + s - cols::XR]);
    }
}

/// The words that a list of folds gives to one lane.
pub open spec fn lane_words(events: Seq<(usize, [i32; IN_LEN])>, lane: int) -> Seq<[i32; IN_LEN]>
    decreases events.len(),
{
    if events.len() == 0 {
        Seq::empty()
    } else {
        let earlier = lane_words(events.drop_last(), lane);
        if events.last().0 == lane {
            earlier.push(events.last().1)
        } else {
            earlier
        }
    }
}

/// Each lane ends as the exclusive or of the words that were folded into it,
/// and of no others.
pub proof fn lane_holds_its_own_words(events: Seq<(usize, [i32; IN_LEN])>, lane: int)
    requires
        lanes_ok(events),
        0 <= lane < 64,
    ensures
        stripe_fold(events).len() == 64,
        stripe_fold(events)[lane] == x_step(lane_words(events, lane)),
    decreases events.len(),
{
    if events.len() > 0 {
        let earlier = lane_words(events.drop_last(), lane);
        assert(lanes_ok(events.drop_last()));
        lane_holds_its_own_words(events.drop_last(), lane);
        assert(events[events.len() - 1].0 < 64);
        assert(earlier.push(events.last().1).drop_last() =~= earlier);
    }
}

/// A trace whose chip columns are all zero meets the rules, whatever the
/// columns hold that only active rows use.
pub proof fn zero_columns_meet_rules(off: StripeXorOffsets, reset_aware: bool, w: Window)
    requires
        w.cur[off.is_active as int] == 0,
        w.cur[off.seg_reset as int] == 0,
        w.cur[off.new_sel as int] == 0,
        none_hot(w.cur, off.lane_sel as int, 64),
        none_hot(w.cur, off.xr as int, 64),
        none_hot(w.nxt, off.xr as int, 64),
        none_hot(w.cur, off.q as int, 32),
    ensures
        stripe_xor_rules(off, reset_aware, w),
{
    let s = w.cur;
    assert(is_bool(0)) by {
        assert(0 * (0 - 1) == 0);
    }
    lemma_none_hot_sum(s, off.lane_sel as int, 64);
    lemma_none_hot_dot(s, off.lane_sel as int, w.nxt, off.xr as int, 64);
    lemma_boolean_passes(0, s, off.lane_sel as int, 64);
    lemma_closed_gate(off.parity(), dot_cells(s, off.lane_sel as int, s, off.xr as int, 64), s);
    assert forall|j: int| off.xr <= j < off.xr + 64 implies is_zero(
        s[off.seg_reset as int] * (#[trigger] s[j]),
    ) by {
        assert(0 * s[j] == 0);
    }
    assert forall|j: int| off.q <= j < off.q + 32 implies crate::air::is_ternary(
        (#[trigger] s[j]) as int,
    ) by {
        assert(s[j] == 0);
        assert(0 * (0 - 1) * (0 - 2) == 0);
    }
    assert forall|k: int| 0 <= k < 64 implies #[trigger] passthrough_rule(
        off,
        reset_aware,
        w,
        k,
    ) by {
        assert(w.nxt[off.xr + k] == 0 && s[off.xr + k] == 0);
        let carry = 1 - w.nxt[off.seg_reset as int];
        let idle = 1 - s[off.lane_sel + k];
        assert(carry * idle * 0 == 0);
        assert(idle * 0 == 0);
    }
}

/// The order of two folds does not matter.
pub proof fn fold_order_is_irrelevant(
    xr: Seq<u32>,
    a: int,
    in_a: Seq<i32>,
    b: int,
    in_b: Seq<i32>,
)
    requires
        0 <= a < xr.len(),
        0 <= b < xr.len(),
    ensures
        fold_lane(fold_lane(xr, a, in_a), b, in_b) == fold_lane(fold_lane(xr, b, in_b), a, in_a),
{
    let x = xor_fold(in_a);
    let y = xor_fold(in_b);
    if a == b {
        crate::bits::lemma_xor_algebra(xr[a], x, y);
        crate::bits::lemma_xor_algebra(xr[a], y, x);
        crate::bits::lemma_xor_algebra(x, y, 0);
    }
    assert(fold_lane(fold_lane(xr, a, in_a), b, in_b) =~= fold_lane(
        fold_lane(xr, b, in_b),
        a,
        in_a,
    ));
}

/// What holds of the register on one row: it carries the given words, which
/// are zero on the first row and where the row resets.
proof fn lemma_register_row(off: StripeXorOffsets, w: Window, xr: Seq<u32>)
    requires
        carries(off, w.cur, xr),
        w.cur[off.seg_reset as int] == 0 || w.cur[off.seg_reset as int] == 1,
        w.first || w.cur[off.seg_reset as int] == 1 ==> forall|s: int|
            0 <= s < 64 ==> #[trigger] xr[s] == 0,
    ensures
        reset_rules(off, w),
        w.first ==> all_zero(w.cur, off.xr as int, 64),
{
    let s = w.cur;
    let reset = s[off.seg_reset as int] as int;
    assert(is_bool(0) && is_bool(1)) by {
        assert(0 * (0 - 1) == 0);
        assert(1 * (1 - 1) == 0);
    }
    assert forall|j: int| off.xr <= j < off.xr + 64 implies is_zero(
        s[off.seg_reset as int] * (#[trigger] s[j]),
    ) && (w.first ==> is_zero(s[j] as int)) by {
        assert(s[off.xr + (j - off.xr)] == xr[j - off.xr]);
        let x = s[j] as int;
        assert(reset * x == 0) by (nonlinear_arith)
            requires
                reset == 0 || x == 0,
        ;
    }
}

/// A row that folds meets the rules wherever its columns stand: its selector
/// picks a lane, its inputs, the lane's word and the new word are filled in
/// with their bits, and the row below, which does not reset, holds the register
/// with the exclusive or of the inputs folded into that lane.
pub proof fn folding_window_meets_rules(
    off: StripeXorOffsets,
    w: Window,
    xr: Seq<u32>,
    lane: int,
    in4: Seq<i32>,
)
    requires
        carries(off, w.cur, xr),
        w.cur[off.seg_reset as int] == 0 || w.cur[off.seg_reset as int] == 1,
        w.first || w.cur[off.seg_reset as int] == 1 ==> forall|s: int|
            0 <= s < 64 ==> #[trigger] xr[s] == 0,
        w.cur[off.is_active as int] == 1,
        0 <= lane < 64,
        one_hot(w.cur, off.lane_sel as int, 64, lane),
        in4.len() == 4,
        parity_filled(off.parity(), w.cur, xr[lane], in4),
        !w.last ==> w.nxt[off.seg_reset as int] == 0,
        !w.last ==> forall|s: int|
            0 <= s < 64 ==> #[trigger] w.nxt[off.xr + s] == if s == lane {
                xr[lane] ^ (in4[0] as u32) ^ (in4[1] as u32) ^ (in4[2] as u32) ^ (in4[3] as u32)
            } else {
                xr[s]
            },
    ensures
        stripe_xor_rules(off, true, w),
        stripe_xor_rules(off, false, w),
{
    let s = w.cur;
    let t = w.nxt;
    assert(is_bool(1)) by {
        assert(1 * (1 - 1) == 0);
    }
    lemma_register_row(off, w, xr);
    lemma_one_hot_sum(s, off.lane_sel as int, 64, lane);
    lemma_boolean_passes(0, s, off.lane_sel as int, 64);
    lemma_one_hot_dot(s, off.lane_sel as int, s, off.xr as int, 64, lane);
    assert(s[off.xr + lane] == xr[lane]);
    lemma_filled_block_holds(off.parity(), s, xr[lane], in4);
    if !w.last {
        lemma_xor_fold_four(xr[lane], in4);
        lemma_one_hot_dot(s, off.lane_sel as int, t, off.xr as int, 64, lane);
        assert(t[off.xr + lane] == s[off.new_sel as int]);
        assert forall|i: int|
            0 <= i < 64 implies #[trigger] passthrough_rule(off, true, w, i) && passthrough_rule(
            off,
            false,
            w,
            i,
        ) by {
            let carry = 1 - t[off.seg_reset as int];
            let idle = 1 - s[off.lane_sel + i];
            let diff = t[off.xr + i] - s[off.xr + i];
            assert(s[off.xr + i] == xr[i]);
            assert(idle * diff == 0 && carry * idle * diff == 0) by (nonlinear_arith)
                requires
                    idle == 0 || diff == 0,
            ;
        }
        assert forall|i: int| 0 <= i < 64 implies #[trigger] passthrough_rule(off, false, w, i) by {
            assert(passthrough_rule(off, true, w, i));
        }
    }
}

/// A row that does not fold meets the rules whatever its inputs and bits hold:
/// it selects nothing, and the row below holds the same register unless it
/// resets.
pub proof fn holding_window_meets_rules(off: StripeXorOffsets, w: Window, xr: Seq<u32>)
    requires
        carries(off, w.cur, xr),
        w.cur[off.seg_reset as int] == 0 || w.cur[off.seg_reset as int] == 1,
        w.first || w.cur[off.seg_reset as int] == 1 ==> forall|s: int|
            0 <= s < 64 ==> #[trigger] xr[s] == 0,
        w.cur[off.is_active as int] == 0,
        w.cur[off.new_sel as int] == 0,
        none_hot(w.cur, off.lane_sel as int, 64),
        forall|j: int| off.q <= j < off.q + 32 ==> (#[trigger] w.cur[j]) <= 2,
        !w.last ==> w.nxt[off.seg_reset as int] == 1 || carries(off, w.nxt, xr),
    ensures
        stripe_xor_rules(off, true, w),
        carries(off, w.nxt, xr) ==> stripe_xor_rules(off, false, w),
{
    let s = w.cur;
    let t = w.nxt;
    assert(is_bool(0)) by {
        assert(0 * (0 - 1) == 0);
    }
    lemma_register_row(off, w, xr);
    lemma_none_hot_sum(s, off.lane_sel as int, 64);
    lemma_boolean_passes(0, s, off.lane_sel as int, 64);
    lemma_closed_gate(off.parity(), dot_cells(s, off.lane_sel as int, s, off.xr as int, 64), s);
    lemma_small_is_ternary(s, off.q as int, 32);
    lemma_none_hot_dot(s, off.lane_sel as int, t, off.xr as int, 64);
    assert forall|i: int| 0 <= i < 64 && !w.last implies #[trigger] passthrough_rule(
        off,
        true,
        w,
        i,
    ) by {
        let carry = 1 - t[off.seg_reset as int];
        let idle = 1 - s[off.lane_sel + i];
        let diff = t[off.xr + i] - s[off.xr + i];
        assert(s[off.xr + i] == xr[i]);
        if carry != 0 {
            assert(t[off.xr + i] == xr[i]);
        }
        assert(carry * idle * diff == 0) by (nonlinear_arith)
            requires
                carry == 0 || diff == 0,
        ;
    }
    if carries(off, w.nxt, xr) {
        assert forall|i: int| 0 <= i < 64 implies #[trigger] passthrough_rule(off, false, w, i) by {
            assert(s[off.xr + i] == xr[i] && t[off.xr + i] == xr[i]);
            let idle = 1 - s[off.lane_sel + i];
            assert(idle * 0 == 0);
        }
    }
}

/// Without resets the reset flag plays no part: the reset-free rules are the
/// same whatever it holds.
pub proof fn reset_free_rules_ignore_flag(off: StripeXorOffsets, v: Window, w: Window)
    requires
        off.seg_reset >= off.q + 32,
        off.seg_reset >= off.in_bits + 128,
        off.seg_reset >= off.new_sel_bits + 32,
        off.seg_reset >= off.xr_sel_bits + 32,
        off.seg_reset >= off.lane_sel + 64,
        off.seg_reset >= off.xr + 64,
        off.seg_reset >= off.in_cells + 4,
        off.seg_reset > off.is_active,
        off.seg_reset > off.new_sel,
        v.first == w.first,
        v.last == w.last,
        forall|j: int| j < off.seg_reset ==> #[trigger] v.cur[j] == w.cur[j],
        forall|j: int| j < off.seg_reset ==> #[trigger] v.nxt[j] == w.nxt[j],
        stripe_xor_rules(off, false, v),
    ensures
        stripe_xor_rules(off, false, w),
{
    lemma_same_sum(v.cur, w.cur, off.lane_sel as int, 64);
    lemma_same_dot(v.cur, w.cur, off.lane_sel as int, v.cur, w.cur, off.xr as int, 64);
    lemma_same_dot(v.cur, w.cur, off.lane_sel as int, v.nxt, w.nxt, off.xr as int, 64);
    assert(crate::air::all_bool(w.cur, off.lane_sel as int, 64)) by {
        assert forall|j: int| off.lane_sel <= j < off.lane_sel + 64 implies is_bool(
            (#[trigger] w.cur[j]) as int,
        ) by {
            assert(is_bool(v.cur[j] as int));
        }
    }
    assert(all_ternary(w.cur, off.q as int, 32)) by {
        assert forall|j: int| off.q <= j < off.q + 32 implies crate::air::is_ternary(
            (#[trigger] w.cur[j]) as int,
        ) by {
            assert(crate::air::is_ternary(v.cur[j] as int));
        }
    }
    lemma_same_block(
        off.parity(),
        v.cur[off.is_active as int] as int,
        dot_cells(v.cur, off.lane_sel as int, v.cur, off.xr as int, 64),
        v.cur,
        w.cur,
        off.seg_reset as int,
    );
    if w.first {
        assert forall|j: int| off.xr <= j < off.xr + 64 implies is_zero(
            (#[trigger] w.cur[j]) as int,
        ) by {
            assert(is_zero(v.cur[j] as int));
        }
    }
    if !w.last {
        assert forall|i: int| 0 <= i < 64 implies #[trigger] passthrough_rule(off, false, w, i) by {
            assert(passthrough_rule(off, false, v, i));
        }
    }
}

/// Equal cells add up equally.
proof fn lemma_same_sum(s: Seq<u64>, t: Seq<u64>, start: int, n: nat)
    requires
        forall|j: int| start <= j < start + n ==> #[trigger] s[j] == t[j],
    ensures
        crate::air::sum_cells(s, start, n) == crate::air::sum_cells(t, start, n),
    decreases n,
{
    if n > 0 {
        lemma_same_sum(s, t, start, (n - 1) as nat);
        assert(s[start + n - 1] == t[start + n - 1]);
    }
}

/// Equal cells multiply equally.
proof fn lemma_same_dot(
    s: Seq<u64>,
    t: Seq<u64>,
    a: int,
    u: Seq<u64>,
    v: Seq<u64>,
    b: int,
    n: nat,
)
    requires
        forall|j: int| a <= j < a + n ==> #[trigger] s[j] == t[j],
        forall|j: int| b <= j < b + n ==> #[trigger] u[j] == v[j],
    ensures
        dot_cells(s, a, u, b, n) == dot_cells(t, a, v, b, n),
    decreases n,
{
    if n > 0 {
        lemma_same_dot(s, t, a, u, v, b, (n - 1) as nat);
        assert(s[a + n - 1] == t[a + n - 1]);
        assert(u[b + n - 1] == v[b + n - 1]);
    }
}

/// A trace is as long as its schedule needs with one row to spare, rounded up
/// to a power of two, and no longer.
pub proof fn built_trace_is_shortest(m: RowMajorMatrix, sched: Seq<SxRow>)
    requires
        trace_runs(m, sched),
    ensures
        m.spec_height() > sched.len(),
        m.spec_height() == 4 || m.spec_height() < 2 * (sched.len() + 1),
        exists|k: nat| m.spec_height() == #[trigger] vstd::arithmetic::power2::pow2(k),
{
    padded_height_is_least_power_of_two(sched.len() + 1);
}

/// A plain list of folds takes one row each; a list of segments takes one row
/// per fold and one more per segment.
pub proof fn schedules_take_a_row_per_fold(
    events: Seq<(usize, [i32; IN_LEN])>,
    segments: Seq<Seq<(usize, [i32; IN_LEN])>>,
    g: int,
)
    requires
        0 <= g < segments.len(),
    ensures
        plain_schedule(events).len() == events.len(),
        rows_before(segments, 0) == 0,
        rows_before(segments, g + 1) == rows_before(segments, g) + segments[g].len() + 1,
        segments_schedule(segments).len() == rows_before(segments, segments.len() as int),
{
    lemma_segments_step(segments, g);
    assert(segments.take(0) =~= Seq::empty());
    assert(segments.take(segments.len() as int) =~= segments);
}

} // verus!
