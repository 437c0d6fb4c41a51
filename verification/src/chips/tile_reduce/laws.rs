//! What the tile-reduce constraints say of a trace.

use vstd::prelude::*;

use crate::air::{is_bool, Window};
use crate::bits::{lemma_xor_fold_concat, xor_fold};
use crate::chips::parity::{
    inputs, lemma_closed_gate, lemma_filled_block_holds, lemma_small_is_ternary,
    lemma_xor_fold_four, parity_block_is_xor, parity_filled,
};
use crate::chips::selector::none_hot;
use crate::chips::tile_reduce::{
    cols, lemma_rows_monotone, lemma_stripes_step, reduce_update, row_matches, rows_before,
    scalar_after, scalar_entering, stripe_schedule, stripes_schedule, tile_reduce_rules,
    trace_runs, x_step, TileReduceOffsets, TrRow, IN_LEN,
};
use crate::field::lemma_feq_canonical;
use crate::matrix::{lemma_row_canonical, padded_height_is_least_power_of_two, RowMajorMatrix};
use crate::prime::bool_check_is_boolean;

verus! {

/// What a row of any trace does.
pub open spec fn row_kind(off: TileReduceOffsets, row: Seq<u64>) -> TrRow {
    let reset = row[off.stripe_reset as int] == 1;
    if row[off.is_active as int] == 1 {
        TrRow::Active { in4: inputs(off.parity(), row), reset }
    } else {
        TrRow::Idle { reset }
    }
}

/// What the rows of a trace do.
pub open spec fn trace_schedule(off: TileReduceOffsets, m: RowMajorMatrix) -> Seq<TrRow> {
    Seq::new(m.spec_height(), |r: int| row_kind(off, m.row(r)))
}

/// One transition: into a row that does not start a stripe, an active row
/// hands on its scalar folded with its four inputs, and a padding row hands on
/// its scalar unchanged.
pub proof fn transition_folds_inputs(off: TileReduceOffsets, w: Window)
    requires
        w.canonical(),
        off.within(w.cur.len() as int),
        w.nxt.len() == w.cur.len(),
        tile_reduce_rules(off, w),
        !w.last,
        w.nxt[off.stripe_reset as int] == 0,
    ensures
        w.cur[off.is_active as int] == 0 || w.cur[off.is_active as int] == 1,
        w.cur[off.is_active as int] == 1 ==> w.cur[off.xstep as int] <= u32::MAX
            && w.nxt[off.xstep as int] == (w.cur[off.xstep as int] as u32) ^ xor_fold(
            inputs(off.parity(), w.cur),
        ),
        w.cur[off.is_active as int] == 0 ==> w.nxt[off.xstep as int] == w.cur[off.xstep as int],
{
    let s = w.cur;
    let active = s[off.is_active as int] as int;
    let below = w.nxt[off.xstep as int] as int;
    bool_check_is_boolean(active);
    assert(reduce_update(off, w));
    let carry = 1 - w.nxt[off.stripe_reset as int];
    if active == 1 {
        parity_block_is_xor(off.parity(), s[off.xstep as int] as int, s);
        let d = below - s[off.new as int];
        assert(carry * active * d == d) by (nonlinear_arith)
            requires
                carry == 1,
                active == 1,
        ;
        lemma_feq_canonical(below, s[off.new as int] as int);
    } else {
        let d = below - s[off.xstep as int];
        assert(carry * (1 - active) * d == d) by (nonlinear_arith)
            requires
                carry == 1,
                active == 0,
        ;
        lemma_feq_canonical(below, s[off.xstep as int] as int);
    }
}

/// On an active row the new value is the running scalar folded with the four
/// inputs.
pub proof fn active_row_folds_inputs(off: TileReduceOffsets, w: Window)
    requires
        w.canonical(),
        off.within(w.cur.len() as int),
        tile_reduce_rules(off, w),
        w.cur[off.is_active as int] == 1,
    ensures
        w.cur[off.xstep as int] <= u32::MAX,
        w.cur[off.new as int] == (w.cur[off.xstep as int] as u32) ^ xor_fold(
            inputs(off.parity(), w.cur),
        ),
{
    parity_block_is_xor(off.parity(), w.cur[off.xstep as int] as int, w.cur);
}

/// A reset row and the first row carry zero.
pub proof fn lemma_fresh_row(off: TileReduceOffsets, w: Window)
    requires
        w.canonical(),
        off.within(w.cur.len() as int),
        tile_reduce_rules(off, w),
    ensures
        w.cur[off.stripe_reset as int] == 0 || w.cur[off.stripe_reset as int] == 1,
        w.cur[off.stripe_reset as int] == 1 || w.first ==> w.cur[off.xstep as int] == 0,
{
    let reset = w.cur[off.stripe_reset as int] as int;
    let x = w.cur[off.xstep as int] as int;
    bool_check_is_boolean(reset);
    if reset == 1 || w.first {
        if reset == 1 {
            assert(1 * x == x);
        }
        lemma_feq_canonical(x, 0);
    }
}

/// The scalar after one more row of a schedule.
proof fn lemma_scalar_step(sched: Seq<TrRow>, r: int)
    requires
        0 <= r < sched.len(),
    ensures
        scalar_after(sched.take(r + 1)) == match sched[r] {
            TrRow::Idle { .. } => scalar_entering(sched, r),
            TrRow::Active { in4, .. } => scalar_entering(sched, r) ^ xor_fold(in4),
        },
{
    assert(sched.take(r + 1).drop_last() =~= sched.take(r));
    assert(sched.take(r + 1).last() == sched[r]);
}

/// In any trace that meets the rules, every row carries the scalar that the
/// rows above it fold together since the last reset.
pub proof fn scalar_is_determined(off: TileReduceOffsets, m: RowMajorMatrix, r: int)
    requires
        m.wf(),
        off.within(m.width as int),
        m.satisfies(|w: Window| tile_reduce_rules(off, w)),
        0 <= r < m.spec_height(),
    ensures
        m.row(r)[off.xstep as int] == scalar_entering(trace_schedule(off, m), r),
    decreases r,
{
    let rule = |w: Window| tile_reduce_rules(off, w);
    let sched = trace_schedule(off, m);
    let w = m.window(r, Seq::empty(), Seq::empty());
    lemma_row_canonical(m, r);
    lemma_row_canonical(
        m,
        if r + 1 < m.spec_height() {
            r + 1
        } else {
            0
        },
    );
    assert(rule(w));
    lemma_fresh_row(off, w);
    if r == 0 {
        assert(sched.take(0) =~= Seq::empty());
    } else if !sched[r].resets() {
        scalar_is_determined(off, m, r - 1);
        lemma_row_canonical(m, r - 1);
        let v = m.window(r - 1, Seq::empty(), Seq::empty());
        assert(rule(v));
        transition_folds_inputs(off, v);
        lemma_scalar_step(sched, r - 1);
        assert(sched[r - 1] == row_kind(off, v.cur));
    }
}

/// A trace that runs a schedule of four-word folds meets the rules.
pub proof fn scheduled_trace_meets_rules(m: RowMajorMatrix, sched: Seq<TrRow>)
    requires
        trace_runs(m, sched),
        forall|r: int|
            0 <= r < sched.len() ==> (#[trigger] sched[r] matches TrRow::Active { in4, .. }
                ==> in4.len() == 4),
    ensures
        m.satisfies(|w: Window| tile_reduce_rules(TileReduceOffsets::local(), w)),
{
    let off = TileReduceOffsets::local();
    let rule = |w: Window| tile_reduce_rules(off, w);
    let h = m.spec_height() as int;
    padded_height_is_least_power_of_two(sched.len() + 1);
    assert(is_bool(0) && is_bool(1)) by {
        assert(0 * (0 - 1) == 0);
        assert(1 * (1 - 1) == 0);
    }
    assert forall|r: int| 0 <= r < m.spec_height() implies rule(
        #[trigger] m.window(r, Seq::empty(), Seq::empty()),
    ) by {
        let w = m.window(r, Seq::empty(), Seq::empty());
        let s = w.cur;
        let kind = if r < sched.len() {
            sched[r]
        } else {
            TrRow::Idle { reset: false }
        };
        let x = scalar_entering(sched, r);
        assert(row_matches(m.row(r), kind, x));
        if r == 0 {
            assert(sched.take(0) =~= Seq::empty());
        }
        let reset = s[cols::STRIPE_RESET as int] as int;
        assert(reset * x == 0) by (nonlinear_arith)
            requires
                reset == 0 || x == 0,
        ;
        match kind {
            TrRow::Active { in4, .. } => {
                lemma_filled_block_holds(off.parity(), s, x, in4);
            },
            TrRow::Idle { .. } => {
                assert(s[cols::IS_ACTIVE as int] == 0);
                lemma_closed_gate(off.parity(), x as int, s);
                assert forall|j: int| off.q <= j < off.q + 32 implies crate::air::is_ternary(
                    (#[trigger] s[j]) as int,
                ) by {
                    assert(s[j] == 0);
                    assert(0 * (0 - 1) * (0 - 2) == 0);
                }
            },
        }
        if r + 1 < h {
            let t = w.nxt;
            let below = if r + 1 < sched.len() {
                sched[r + 1]
            } else {
                TrRow::Idle { reset: false }
            };
            let next = scalar_entering(sched, r + 1);
            assert(row_matches(m.row(r + 1), below, next));
            let carry = 1 - t[cols::STRIPE_RESET as int];
            let active = s[cols::IS_ACTIVE as int] as int;
            let d_new = next - s[cols::NEW as int];
            let d_old = next - x;
            if r < sched.len() {
                lemma_scalar_step(sched, r);
                if r + 1 == sched.len() {
                    assert(sched.take(r + 1) =~= sched);
                }
            }
            assert(carry == 0 || (active == 1 && d_new == 0) || (active == 0 && d_old == 0));
            assert(carry * active * d_new == 0) by (nonlinear_arith)
                requires
                    carry == 0 || active == 0 || d_new == 0,
            ;
            assert(carry * (1 - active) * d_old == 0) by (nonlinear_arith)
                requires
                    carry == 0 || active == 1 || d_old == 0,
            ;
            assert(reduce_update(off, w));
        }
    }
}

/// The rows of a stripe within the whole schedule.
proof fn lemma_stripe_rows(stripes: Seq<Seq<[i32; IN_LEN]>>, s: int)
    requires
        0 <= s < stripes.len(),
    ensures
        rows_before(stripes, s) + stripes[s].len() <= stripes_schedule(stripes).len(),
        rows_before(stripes, s + 1) == rows_before(stripes, s) + stripes[s].len(),
        forall|k: int|
            0 <= k < stripes[s].len() ==> #[trigger] stripes_schedule(stripes)[rows_before(
                stripes,
                s,
            ) + k] == stripe_schedule(stripes[s])[k],
{
    let n = stripes.len() as int;
    let sched = stripes_schedule(stripes);
    let start = rows_before(stripes, s) as int;
    lemma_stripes_step(stripes, s);
    lemma_rows_monotone(stripes, s + 1, n);
    assert(stripes.take(n) =~= stripes);
    let upto = stripes_schedule(stripes.take(s + 1));
    assert forall|k: int| 0 <= k < stripes[s].len() implies #[trigger] sched[start + k]
        == stripe_schedule(stripes[s])[k] by {
        assert(sched.take(upto.len() as int)[start + k] == sched[start + k]);
        assert(upto[start + k] == stripe_schedule(stripes[s])[k]);
    }
}

/// Within a stripe the scalar is the fold of the stripe's own sub-blocks.
proof fn lemma_stripe_scalar(stripes: Seq<Seq<[i32; IN_LEN]>>, s: int, k: int)
    requires
        0 <= s < stripes.len(),
        1 <= k <= stripes[s].len(),
    ensures
        scalar_after(stripes_schedule(stripes).take(rows_before(stripes, s) + k)) == x_step(
            stripes[s].take(k),
        ),
    decreases k,
{
    let sched = stripes_schedule(stripes);
    let stripe = stripes[s];
    let start = rows_before(stripes, s) as int;
    lemma_stripe_rows(stripes, s);
    let n = start + (k - 1);
    lemma_scalar_step(sched, n);
    assert(sched[start + (k - 1)] == stripe_schedule(stripe)[k - 1]);
    assert(sched[n] == TrRow::Active { in4: stripe[k - 1]@, reset: k == 1 });
    assert(sched.take(n + 1) == sched.take(start + k));
    assert(stripe.take(k).drop_last() =~= stripe.take(k - 1));
    assert(stripe.take(k).last() == stripe[k - 1]);
    assert(x_step(stripe.take(k)) == x_step(stripe.take(k).drop_last()) ^ xor_fold(
        stripe[k - 1]@,
    ));
    if k == 1 {
        assert(stripe.take(0) =~= Seq::empty());
    } else {
        lemma_stripe_scalar(stripes, s, k - 1);
    }
}

/// Every fold of a schedule of stripes takes four words.
proof fn lemma_stripes_schedule_ok(stripes: Seq<Seq<[i32; IN_LEN]>>)
    ensures
        forall|r: int|
            0 <= r < stripes_schedule(stripes).len() ==> (#[trigger] stripes_schedule(
                stripes,
            )[r] matches TrRow::Active { in4, .. } ==> in4.len() == 4),
    decreases stripes.len(),
{
    if stripes.len() > 0 {
        lemma_stripes_schedule_ok(stripes.drop_last());
        let a = stripes_schedule(stripes.drop_last());
        let b = stripe_schedule(stripes.last());
        let sched = stripes_schedule(stripes);
        assert(sched == a + b);
        assert forall|r: int| 0 <= r < sched.len() implies (
        #[trigger] sched[r] matches TrRow::Active { in4, .. } ==> in4.len() == 4) by {
            if r < a.len() {
                assert(sched[r] == a[r]);
            } else {
                assert(sched[r] == b[r - a.len()]);
            }
        }
    }
}

/// Folding a stripe sub-block by sub-block gives the exclusive or of all its
/// cells.
pub proof fn reduction_is_xor_of_cells(stripe: Seq<[i32; IN_LEN]>, cells: Seq<i32>)
    requires
        cells.len() == stripe.len() * 4,
        forall|sb: int|
            0 <= sb < stripe.len() ==> (#[trigger] stripe[sb])@ == cells.subrange(
                sb * 4,
                sb * 4 + 4,
            ),
    ensures
        x_step(stripe) == xor_fold(cells),
    decreases stripe.len(),
{
    if stripe.len() > 0 {
        let k = stripe.len() - 1;
        let head = cells.take(k * 4);
        let rest = stripe.drop_last();
        assert forall|sb: int| 0 <= sb < rest.len() implies (#[trigger] rest[sb])@
            == head.subrange(sb * 4, sb * 4 + 4) by {
            assert(rest[sb] == stripe[sb]);
            assert(head.subrange(sb * 4, sb * 4 + 4) =~= cells.subrange(sb * 4, sb * 4 + 4));
        }
        reduction_is_xor_of_cells(rest, head);
        assert(stripe[k]@ == cells.subrange(k * 4, k * 4 + 4));
        assert(cells =~= head + stripe[k]@);
        lemma_xor_fold_concat(head, stripe[k]@);
    }
}

/// A trace whose flags, scalar and quotients are zero meets the rules,
/// whatever the columns hold that only active rows use.
pub proof fn zero_columns_meet_rules(off: TileReduceOffsets, w: Window)
    requires
        w.cur[off.is_active as int] == 0,
        w.cur[off.stripe_reset as int] == 0,
        w.cur[off.xstep as int] == 0,
        w.nxt[off.xstep as int] == 0,
        none_hot(w.cur, off.q as int, 32),
    ensures
        tile_reduce_rules(off, w),
{
    let s = w.cur;
    assert(is_bool(0)) by {
        assert(0 * (0 - 1) == 0);
    }
    lemma_closed_gate(off.parity(), 0, s);
    assert forall|j: int| off.q <= j < off.q + 32 implies crate::air::is_ternary(
        (#[trigger] s[j]) as int,
    ) by {
        assert(s[j] == 0);
        assert(0 * (0 - 1) * (0 - 2) == 0);
    }
    let carry = 1 - w.nxt[off.stripe_reset as int];
    let d = w.nxt[off.xstep as int] - s[off.new as int];
    assert(carry * 0 * d == 0 && carry * 1 * 0 == 0) by (nonlinear_arith);
    assert(reduce_update(off, w));
}

/// The trace of a list of stripes meets the rules, and on the last row of a
/// stripe the new value is the exclusive or of that stripe's own cells.
pub proof fn stripes_are_reduced(m: RowMajorMatrix, stripes: Seq<Seq<[i32; IN_LEN]>>, s: int)
    requires
        trace_runs(m, stripes_schedule(stripes)),
        0 <= s < stripes.len(),
        stripes[s].len() > 0,
    ensures
        m.satisfies(|w: Window| tile_reduce_rules(TileReduceOffsets::local(), w)),
        0 <= rows_before(stripes, s + 1) - 1 < m.spec_height(),
        m.row(rows_before(stripes, s + 1) - 1)[cols::NEW as int] == x_step(stripes[s]),
{
    let sched = stripes_schedule(stripes);
    let stripe = stripes[s];
    let r = rows_before(stripes, s + 1) - 1;
    padded_height_is_least_power_of_two(sched.len() + 1);
    lemma_stripes_schedule_ok(stripes);
    scheduled_trace_meets_rules(m, sched);
    lemma_stripe_rows(stripes, s);
    let n = stripe.len() as int;
    lemma_stripe_scalar(stripes, s, n);
    assert(stripe.take(n) =~= stripe);
    assert(sched[rows_before(stripes, s) + (n - 1)] == stripe_schedule(stripe)[n - 1]);
    lemma_scalar_step(sched, r);
    assert(row_matches(m.row(r), sched[r], scalar_entering(sched, r)));
}

/// A row that folds meets the rules wherever its columns stand: its inputs,
/// the running scalar and the new value are filled in with their bits, the
/// scalar is zero where a stripe starts, and the row below holds the new value
/// unless it starts a stripe.
pub proof fn folding_window_meets_rules(
    off: TileReduceOffsets,
    w: Window,
    x: u32,
    in4: Seq<i32>,
)
    requires
        w.cur[off.is_active as int] == 1,
        w.cur[off.stripe_reset as int] == 0 || w.cur[off.stripe_reset as int] == 1,
        w.cur[off.xstep as int] == x,
        w.first || w.cur[off.stripe_reset as int] == 1 ==> x == 0,
        in4.len() == 4,
        parity_filled(off.parity(), w.cur, x, in4),
        !w.last ==> w.nxt[off.stripe_reset as int] == 1 || w.nxt[off.xstep as int] == x ^ (
        in4[0] as u32) ^ (in4[1] as u32) ^ (in4[2] as u32) ^ (in4[3] as u32),
    ensures
        tile_reduce_rules(off, w),
{
    let s = w.cur;
    let reset = s[off.stripe_reset as int] as int;
    assert(is_bool(0) && is_bool(1)) by {
        assert(0 * (0 - 1) == 0);
        assert(1 * (1 - 1) == 0);
    }
    assert(reset * x == 0) by (nonlinear_arith)
        requires
            reset == 0 || x == 0,
    ;
    lemma_filled_block_holds(off.parity(), s, x, in4);
    lemma_xor_fold_four(x, in4);
    let carry = 1 - w.nxt[off.stripe_reset as int];
    let d = w.nxt[off.xstep as int] - s[off.new as int];
    let e = w.nxt[off.xstep as int] - s[off.xstep as int];
    if !w.last {
        assert(carry * 1 * d == 0) by (nonlinear_arith)
            requires
                carry == 0 || d == 0,
        ;
        assert(carry * 0 * e == 0) by (nonlinear_arith);
        assert(reduce_update(off, w));
    }
}

/// A row that does not fold meets the rules whatever its inputs and bits hold:
/// the row below holds the same scalar unless it starts a stripe.
pub proof fn holding_window_meets_rules(off: TileReduceOffsets, w: Window, x: u64)
    requires
        w.cur[off.is_active as int] == 0,
        w.cur[off.stripe_reset as int] == 0 || w.cur[off.stripe_reset as int] == 1,
        w.cur[off.xstep as int] == x,
        w.first || w.cur[off.stripe_reset as int] == 1 ==> x == 0,
        forall|j: int| off.q <= j < off.q + 32 ==> (#[trigger] w.cur[j]) <= 2,
        !w.last ==> w.nxt[off.stripe_reset as int] == 1 || w.nxt[off.xstep as int] == x,
    ensures
        tile_reduce_rules(off, w),
{
    let s = w.cur;
    let reset = s[off.stripe_reset as int] as int;
    assert(is_bool(0) && is_bool(1)) by {
        assert(0 * (0 - 1) == 0);
        assert(1 * (1 - 1) == 0);
    }
    assert(reset * x == 0) by (nonlinear_arith)
        requires
            reset == 0 || x == 0,
    ;
    lemma_closed_gate(off.parity(), x as int, s);
    lemma_small_is_ternary(s, off.q as int, 32);
    let carry = 1 - w.nxt[off.stripe_reset as int];
    let d = w.nxt[off.xstep as int] - s[off.new as int];
    let e = w.nxt[off.xstep as int] - s[off.xstep as int];
    if !w.last {
        assert(carry * 0 * d == 0) by (nonlinear_arith);
        assert(carry * 1 * e == 0) by (nonlinear_arith)
            requires
                carry == 0 || e == 0,
        ;
        assert(reduce_update(off, w));
    }
}

/// A trace is as long as its schedule needs with one row to spare, rounded up
/// to a power of two, and no longer.
pub proof fn built_trace_is_shortest(m: RowMajorMatrix, sched: Seq<TrRow>)
    requires
        trace_runs(m, sched),
    ensures
        m.spec_height() > sched.len(),
        m.spec_height() == 4 || m.spec_height() < 2 * (sched.len() + 1),
        exists|k: nat| m.spec_height() == #[trigger] vstd::arithmetic::power2::pow2(k),
{
    padded_height_is_least_power_of_two(sched.len() + 1);
}

/// A list of stripes takes one row per sub-block.
pub proof fn stripes_take_a_row_per_block(stripes: Seq<Seq<[i32; IN_LEN]>>, s: int)
    requires
        0 <= s < stripes.len(),
    ensures
        rows_before(stripes, 0) == 0,
        rows_before(stripes, s + 1) == rows_before(stripes, s) + stripes[s].len(),
        stripes_schedule(stripes).len() == rows_before(stripes, stripes.len() as int),
{
    lemma_stripes_step(stripes, s);
    assert(stripes.take(0) =~= Seq::empty());
    assert(stripes.take(stripes.len() as int) =~= stripes);
}

} // verus!
