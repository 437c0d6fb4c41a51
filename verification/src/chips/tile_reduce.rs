//! The tile-reduce chip: the exclusive or of a stripe's accumulator cells.
//!
//! The sweep visits the sub-blocks of one stripe after another. Each active
//! row folds one sub-block's four cells into a single running scalar, which
//! starts at zero on the first row of each stripe. On a stripe's last row the
//! new value is the exclusive or of the whole tile after that stripe.

pub mod cols;
pub mod laws;

use vstd::prelude::*;

use crate::air::{all_ternary, is_bool, ConstraintBuilder, Expr, Rows, Window};
use crate::bits::{lemma_xor_algebra, xor_fold};
use crate::chips::parity::{
    emit_parity_block, fill_parity_block, parity_block, parity_filled, ParityOffsets,
};
use crate::composite_layout::{
    TR_IN_BITS_START, TR_IN_START, TR_IS_ACTIVE, TR_NEW, TR_NEW_BITS_START, TR_Q_START,
    TR_STRIPE_RESET, TR_XSTEP, TR_XSTEP_BITS_START,
};
use crate::field::{canonical, is_zero, Val};
use crate::matrix::{
    flatten_rows, lemma_flatten_push, lemma_matrix_rows, padded_height,
    padded_height_is_least_power_of_two, padded_len, push_row, val_of_u32, zero_row,
    RowMajorMatrix,
};

verus! {

/// Words folded per row.
pub const IN_LEN: usize = 4;

/// The tile-reduce chip.
#[derive(Debug, Default, Clone, Copy)]
pub struct TileReduceChip;

/// Columns of the tile-reduce chip.
#[derive(Copy, Clone, Debug)]
pub struct TileReduceOffsets {
    pub is_active: usize,
    pub stripe_reset: usize,
    pub in_cells: usize,
    pub in_bits: usize,
    pub xstep: usize,
    pub xstep_bits: usize,
    pub new: usize,
    pub new_bits: usize,
    pub q: usize,
}

impl TileReduceOffsets {
    /// The columns of the stand-alone chip.
    pub open spec fn local() -> TileReduceOffsets {
        TileReduceOffsets {
            is_active: cols::IS_ACTIVE,
            stripe_reset: cols::STRIPE_RESET,
            in_cells: cols::IN,
            in_bits: cols::IN_BITS,
            xstep: cols::XSTEP,
            xstep_bits: cols::XSTEP_BITS,
            new: cols::NEW,
            new_bits: cols::NEW_BITS,
            q: cols::Q,
        }
    }

    /// The columns in the composite trace.
    pub open spec fn composite() -> TileReduceOffsets {
        TileReduceOffsets {
            is_active: TR_IS_ACTIVE,
            stripe_reset: TR_STRIPE_RESET,
            in_cells: TR_IN_START,
            in_bits: TR_IN_BITS_START,
            xstep: TR_XSTEP,
            xstep_bits: TR_XSTEP_BITS_START,
            new: TR_NEW,
            new_bits: TR_NEW_BITS_START,
            q: TR_Q_START,
        }
    }

    /// The columns of the parity block.
    pub open spec fn parity(self) -> ParityOffsets {
        ParityOffsets {
            in_cells: self.in_cells,
            in_bits: self.in_bits,
            op_bits: self.xstep_bits,
            new: self.new,
            new_bits: self.new_bits,
            q: self.q,
        }
    }

    /// Every column lies within a row.
    pub open spec fn within(self, width: int) -> bool {
        &&& self.parity().within(width)
        &&& self.is_active < width
        &&& self.stripe_reset < width
        &&& self.xstep < width
    }
}

/// The running scalar of the row below, unless that row starts a stripe: the
/// new value after an active row, the same value after padding.
pub open spec fn reduce_update(off: TileReduceOffsets, w: Window) -> bool {
    let carry = 1 - w.nxt[off.stripe_reset as int];
    let active = w.cur[off.is_active as int];
    let below = w.nxt[off.xstep as int];
    &&& is_zero(carry * active * (below - w.cur[off.new as int]))
    &&& is_zero(carry * (1 - active) * (below - w.cur[off.xstep as int]))
}

/// The constraints of the tile-reduce chip at one window.
pub open spec fn tile_reduce_rules(off: TileReduceOffsets, w: Window) -> bool {
    &&& is_bool(w.cur[off.is_active as int] as int)
    &&& is_bool(w.cur[off.stripe_reset as int] as int)
    &&& is_zero(w.cur[off.stripe_reset as int] * w.cur[off.xstep as int])
    &&& all_ternary(w.cur, off.q as int, 32)
    &&& parity_block(
        off.parity(),
        w.cur[off.is_active as int] as int,
        w.cur[off.xstep as int] as int,
        w.cur,
    )
    &&& w.first ==> is_zero(w.cur[off.xstep as int] as int)
    &&& !w.last ==> reduce_update(off, w)
}

impl TileReduceChip {
    /// The columns of the stand-alone chip.
    pub fn local_offsets() -> (off: TileReduceOffsets)
        ensures
            off == TileReduceOffsets::local(),
    {
        TileReduceOffsets {
            is_active: cols::IS_ACTIVE,
            stripe_reset: cols::STRIPE_RESET,
            in_cells: cols::IN,
            in_bits: cols::IN_BITS,
            xstep: cols::XSTEP,
            xstep_bits: cols::XSTEP_BITS,
            new: cols::NEW,
            new_bits: cols::NEW_BITS,
            q: cols::Q,
        }
    }

    /// The columns in the composite trace.
    pub fn composite_offsets() -> (off: TileReduceOffsets)
        ensures
            off == TileReduceOffsets::composite(),
    {
        TileReduceOffsets {
            is_active: TR_IS_ACTIVE,
            stripe_reset: TR_STRIPE_RESET,
            in_cells: TR_IN_START,
            in_bits: TR_IN_BITS_START,
            xstep: TR_XSTEP,
            xstep_bits: TR_XSTEP_BITS_START,
            new: TR_NEW,
            new_bits: TR_NEW_BITS_START,
            q: TR_Q_START,
        }
    }

    /// The number of columns of the stand-alone chip.
    pub fn width(&self) -> (n: usize)
        ensures
            n == cols::ROW_W,
    {
        cols::ROW_W
    }

    /// Emits the constraints of the stand-alone chip.
    pub fn eval(&self, builder: &mut ConstraintBuilder)
        ensures
            forall|w: Window| #[trigger]
                final(builder).holds(w) <==> (old(builder).holds(w) && tile_reduce_rules(
                    TileReduceOffsets::local(),
                    w,
                )),
            forall|d: nat|
                d >= 3 && old(builder).degree_at_most(d) ==> #[trigger] final(builder).degree_at_most(d),
    {
        let off = Self::local_offsets();
        Self::eval_at(builder, &off);
    }

    /// Emits the constraints in the composite trace.
    pub fn eval_composite(builder: &mut ConstraintBuilder)
        ensures
            forall|w: Window| #[trigger]
                final(builder).holds(w) <==> (old(builder).holds(w) && tile_reduce_rules(
                    TileReduceOffsets::composite(),
                    w,
                )),
            forall|d: nat|
                d >= 3 && old(builder).degree_at_most(d) ==> #[trigger] final(builder).degree_at_most(d),
    {
        let off = Self::composite_offsets();
        Self::eval_at(builder, &off);
    }

    /// Emits the constraints on the running scalar of the row below.
    fn emit_update(builder: &mut ConstraintBuilder, off: &TileReduceOffsets)
        ensures
            forall|w: Window| #[trigger]
                final(builder).holds(w) <==> (old(builder).holds(w) && (!w.last ==> reduce_update(
                    *off,
                    w,
                ))),
            forall|d: nat|
                d >= 3 && old(builder).degree_at_most(d) ==> #[trigger] final(builder).degree_at_most(d),
    {
        let carry = Expr::constant(1).minus(Expr::next(off.stripe_reset));
        let gate_new = carry.dup().times(Expr::cur(off.is_active));
        let to_new = Expr::next(off.xstep).minus(Expr::cur(off.new));
        let e_new = gate_new.times(to_new);
        builder.assert_zero_on(Rows::Transition, e_new);
        let ghost b0 = *builder;
        let padding = Expr::constant(1).minus(Expr::cur(off.is_active));
        let gate_keep = carry.dup().times(padding);
        let to_old = Expr::next(off.xstep).minus(Expr::cur(off.xstep));
        let e_keep = gate_keep.times(to_old);
        builder.assert_zero_on(Rows::Transition, e_keep);
        assert forall|w: Window| #[trigger]
            builder.holds(w) <==> (old(builder).holds(w) && (!w.last ==> reduce_update(
                *off,
                w,
            ))) by {
            assert(gate_new.value(w) == carry.value(w) * w.cur[off.is_active as int]);
            assert(e_new.value(w) == gate_new.value(w) * to_new.value(w));
            assert(b0.holds(w) <==> (old(builder).holds(w) && (!w.last ==> is_zero(
                e_new.value(w),
            ))));
            assert(gate_keep.value(w) == carry.value(w) * padding.value(w));
            assert(e_keep.value(w) == gate_keep.value(w) * to_old.value(w));
        }
    }

    /// Emits the constraints at the given columns.
    pub fn eval_at(builder: &mut ConstraintBuilder, off: &TileReduceOffsets)
        requires
            off.parity().fits(),
        ensures
            forall|w: Window| #[trigger]
                final(builder).holds(w) <==> (old(builder).holds(w) && tile_reduce_rules(*off, w)),
            forall|d: nat|
                d >= 3 && old(builder).degree_at_most(d) ==> #[trigger] final(builder).degree_at_most(d),
    {
        builder.assert_bool(off.is_active);
        let ghost b1 = *builder;
        builder.assert_bool(off.stripe_reset);
        let ghost b2 = *builder;
        let fresh = Expr::cur(off.stripe_reset).times(Expr::cur(off.xstep));
        builder.assert_zero(fresh);
        let ghost b3 = *builder;
        builder.assert_ternaries(off.q, 32);
        let ghost b4 = *builder;
        let parity = ParityOffsets {
            in_cells: off.in_cells,
            in_bits: off.in_bits,
            op_bits: off.xstep_bits,
            new: off.new,
            new_bits: off.new_bits,
            q: off.q,
        };
        let gate = Expr::cur(off.is_active);
        let operand = Expr::cur(off.xstep);
        emit_parity_block(builder, &gate, &parity, operand);
        let ghost b5 = *builder;
        builder.assert_zero_on(Rows::First, Expr::cur(off.xstep));
        let ghost b6 = *builder;
        Self::emit_update(builder, off);
        assert forall|w: Window| #[trigger]
            builder.holds(w) <==> (old(builder).holds(w) && tile_reduce_rules(*off, w)) by {
            assert(b1.holds(w) <==> (old(builder).holds(w) && is_bool(
                w.cur[off.is_active as int] as int,
            )));
            assert(b2.holds(w) <==> (b1.holds(w) && is_bool(
                w.cur[off.stripe_reset as int] as int,
            )));
            assert(fresh.value(w) == w.cur[off.stripe_reset as int] * w.cur[off.xstep as int]);
            assert(b3.holds(w) <==> (b2.holds(w) && is_zero(fresh.value(w))));
            assert(b4.holds(w) <==> (b3.holds(w) && all_ternary(w.cur, off.q as int, 32)));
            assert(b5.holds(w) <==> (b4.holds(w) && parity_block(
                parity,
                gate.value(w),
                operand.value(w),
                w.cur,
            )));
            assert(b6.holds(w) <==> (b5.holds(w) && (w.first ==> is_zero(
                w.cur[off.xstep as int] as int,
            ))));
        }
    }
}

/// The exclusive or of the cells of a stripe's sub-blocks.
pub open spec fn x_step(stripe: Seq<[i32; IN_LEN]>) -> u32
    decreases stripe.len(),
{
    if stripe.len() == 0 {
        0
    } else {
        x_step(stripe.drop_last()) ^ xor_fold(stripe.last()@)
    }
}

/// What a row of a trace does.
pub ghost enum TrRow {
    /// Folds four words into the scalar, from zero where `reset` is set.
    Active { in4: Seq<i32>, reset: bool },
    /// Holds the scalar, or clears it where `reset` is set.
    Idle { reset: bool },
}

impl TrRow {
    /// The scalar entering the row is zero.
    pub open spec fn resets(self) -> bool {
        match self {
            TrRow::Active { reset, .. } => reset,
            TrRow::Idle { reset } => reset,
        }
    }
}

/// The scalar that leaves the last row of a schedule.
pub open spec fn scalar_after(sched: Seq<TrRow>) -> u32
    decreases sched.len(),
{
    if sched.len() == 0 {
        0
    } else {
        let before = if sched.last().resets() {
            0
        } else {
            scalar_after(sched.drop_last())
        };
        match sched.last() {
            TrRow::Idle { .. } => before,
            TrRow::Active { in4, .. } => before ^ xor_fold(in4),
        }
    }
}

/// The scalar that enters a row: zero on a reset row.
pub open spec fn scalar_entering(sched: Seq<TrRow>, r: int) -> u32 {
    if r < sched.len() && sched[r].resets() {
        0
    } else if r < sched.len() {
        scalar_after(sched.take(r))
    } else {
        scalar_after(sched)
    }
}

/// The schedule of one stripe: one fold per sub-block, the first of which
/// resets.
pub open spec fn stripe_schedule(stripe: Seq<[i32; IN_LEN]>) -> Seq<TrRow> {
    Seq::new(stripe.len(), |i: int| TrRow::Active { in4: stripe[i]@, reset: i == 0 })
}

/// The schedule of a list of stripes.
pub open spec fn stripes_schedule(stripes: Seq<Seq<[i32; IN_LEN]>>) -> Seq<TrRow>
    decreases stripes.len(),
{
    if stripes.len() == 0 {
        Seq::empty()
    } else {
        stripes_schedule(stripes.drop_last()) + stripe_schedule(stripes.last())
    }
}

/// The rows that the first stripes take.
pub open spec fn rows_before(stripes: Seq<Seq<[i32; IN_LEN]>>, s: int) -> nat {
    stripes_schedule(stripes.take(s)).len()
}

/// The stripes as sequences.
pub open spec fn stripe_views(stripes: Seq<Vec<[i32; IN_LEN]>>) -> Seq<Seq<[i32; IN_LEN]>> {
    Seq::new(stripes.len(), |s: int| stripes[s]@)
}

/// A row holds what its place in a schedule asks for.
pub open spec fn row_matches(row: Seq<u64>, kind: TrRow, x: u32) -> bool {
    &&& row.len() == cols::ROW_W
    &&& canonical(row)
    &&& row[cols::XSTEP as int] == x
    &&& row[cols::STRIPE_RESET as int] == if kind.resets() {
        1int
    } else {
        0int
    }
    &&& match kind {
        TrRow::Active { in4, .. } => {
            &&& row[cols::IS_ACTIVE as int] == 1
            &&& parity_filled(TileReduceOffsets::local().parity(), row, x, in4)
        },
        TrRow::Idle { .. } => forall|j: int|
            0 <= j < cols::ROW_W && j != cols::STRIPE_RESET && j != cols::XSTEP
                ==> #[trigger] row[j] == 0,
    }
}

/// A trace runs a schedule: each row holds what the schedule asks for, and the
/// rows after it hold the last scalar.
pub open spec fn trace_runs(m: RowMajorMatrix, sched: Seq<TrRow>) -> bool {
    &&& m.wf()
    &&& m.width == cols::ROW_W
    &&& m.spec_height() == padded_height(sched.len() + 1)
    &&& forall|r: int|
        0 <= r < m.spec_height() ==> row_matches(
            #[trigger] m.row(r),
            if r < sched.len() {
                sched[r]
            } else {
                TrRow::Idle { reset: false }
            },
            scalar_entering(sched, r),
        )
}

/// One more stripe adds its folds.
pub proof fn lemma_stripes_step(stripes: Seq<Seq<[i32; IN_LEN]>>, s: int)
    requires
        0 <= s < stripes.len(),
    ensures
        stripes_schedule(stripes.take(s + 1)) == stripes_schedule(stripes.take(s))
            + stripe_schedule(stripes[s]),
        rows_before(stripes, s + 1) == rows_before(stripes, s) + stripes[s].len(),
{
    assert(stripes.take(s + 1).drop_last() =~= stripes.take(s));
}

/// A later stripe starts no earlier.
pub proof fn lemma_rows_monotone(stripes: Seq<Seq<[i32; IN_LEN]>>, s: int, k: int)
    requires
        0 <= s <= k <= stripes.len(),
    ensures
        rows_before(stripes, s) <= rows_before(stripes, k),
        stripes_schedule(stripes.take(k)).take(rows_before(stripes, s) as int)
            == stripes_schedule(stripes.take(s)),
    decreases k - s,
{
    if s < k {
        lemma_rows_monotone(stripes, s, k - 1);
        lemma_stripes_step(stripes, k - 1);
        let shorter = stripes_schedule(stripes.take(k - 1));
        assert(stripes_schedule(stripes.take(k)).take(rows_before(stripes, s) as int)
            =~= shorter.take(rows_before(stripes, s) as int));
    } else {
        assert(stripes_schedule(stripes.take(k)).take(rows_before(stripes, s) as int)
            =~= stripes_schedule(stripes.take(s)));
    }
}

/// The exclusive or of each stripe's cells.
pub fn ref_x_steps(stripes: &[Vec<[i32; IN_LEN]>]) -> (steps: Vec<u32>)
    ensures
        steps@.len() == stripes@.len(),
        forall|s: int| 0 <= s < stripes@.len() ==> #[trigger] steps@[s] == x_step(stripes@[s]@),
{
    let mut steps: Vec<u32> = Vec::new();
    let mut s: usize = 0;
    while s < stripes.len()
        invariant
            s <= stripes@.len(),
            steps@.len() == s,
            forall|k: int| 0 <= k < s ==> #[trigger] steps@[k] == x_step(stripes@[k]@),
        decreases stripes@.len() - s,
    {
        let stripe = &stripes[s];
        let mut x: u32 = 0;
        let mut i: usize = 0;
        assert(stripe@.take(0) =~= Seq::empty());
        while i < stripe.len()
            invariant
                i <= stripe@.len(),
                x == x_step(stripe@.take(i as int)),
            decreases stripe@.len() - i,
        {
            let in4 = stripe[i];
            let ghost before = x;
            let mut c: usize = 0;
            proof {
                assert(in4@.take(0) =~= Seq::empty());
                lemma_xor_algebra(x, 0, 0);
            }
            while c < IN_LEN
                invariant
                    c <= 4,
                    x == before ^ xor_fold(in4@.take(c as int)),
                decreases 4 - c,
            {
                let u: u32 = #[verifier::truncate] (in4[c] as u32);
                proof {
                    crate::bits::lemma_xor_fold_step(in4@, c as int);
                    lemma_xor_algebra(before, xor_fold(in4@.take(c as int)), u);
                }
                x = x ^ u;
                c = c + 1;
            }
            assert(in4@.take(4) =~= in4@);
            assert(stripe@.take(i + 1).drop_last() =~= stripe@.take(i as int));
            i = i + 1;
        }
        assert(stripe@.take(i as int) =~= stripe@);
        steps.push(x);
        s = s + 1;
    }
    steps
}

/// A row that holds a scalar.
fn idle_row(x: u32) -> (row: Vec<Val>)
    ensures
        row_matches(row@, TrRow::Idle { reset: false }, x),
{
    let mut row = zero_row(cols::ROW_W);
    row[cols::XSTEP] = val_of_u32(x);
    row
}

/// A row that folds four words into a scalar, and the scalar's new value.
fn active_row(in4: &[i32; IN_LEN], x: u32, reset: bool) -> (r: (Vec<Val>, u32))
    requires
        reset ==> x == 0,
    ensures
        row_matches(r.0@, TrRow::Active { in4: in4@, reset }, x),
        r.1 == x ^ xor_fold(in4@),
{
    let mut row = zero_row(cols::ROW_W);
    row[cols::IS_ACTIVE] = val_of_u32(1);
    if reset {
        row[cols::STRIPE_RESET] = val_of_u32(1);
    }
    row[cols::XSTEP] = val_of_u32(x);
    let ghost before = row@;
    let parity = ParityOffsets {
        in_cells: cols::IN,
        in_bits: cols::IN_BITS,
        op_bits: cols::XSTEP_BITS,
        new: cols::NEW,
        new_bits: cols::NEW_BITS,
        q: cols::Q,
    };
    let new: u32 = fill_parity_block(&mut row, &parity, in4, x);
    proof {
        assert(canonical(before));
        assert forall|j: int|
            0 <= j < cols::ROW_W && !crate::chips::parity::in_block(
                parity,
                j,
            ) implies #[trigger] row@[j] == before[j] by {}
    }
    (row, new)
}

/// The rows that a list of stripes takes, one for each sub-block.
fn count_rows(stripes: &[Vec<[i32; IN_LEN]>]) -> (n: usize)
    requires
        stripes_schedule(stripe_views(stripes@)).len() < usize::MAX,
    ensures
        n == stripes_schedule(stripe_views(stripes@)).len(),
{
    let ghost views = stripe_views(stripes@);
    let mut n: usize = 0;
    let mut s: usize = 0;
    assert(views.take(0) =~= Seq::empty());
    assert(views.take(views.len() as int) =~= views);
    while s < stripes.len()
        invariant
            s <= stripes@.len(),
            views == stripe_views(stripes@),
            views.take(views.len() as int) == views,
            stripes_schedule(views).len() < usize::MAX,
            n == rows_before(views, s as int),
        decreases stripes@.len() - s,
    {
        proof {
            lemma_stripes_step(views, s as int);
            lemma_rows_monotone(views, s + 1, views.len() as int);
        }
        n = n + stripes[s].len();
        s = s + 1;
    }
    n
}

/// The trace of a list of stripes: one active row per sub-block, then rows
/// that hold the last scalar, up to a power of two of at least four rows. Also
/// for each stripe its last row, where the new value is the stripe's scalar.
pub fn build_trace(stripes: &[Vec<[i32; IN_LEN]>]) -> (r: (RowMajorMatrix, Vec<usize>))
    requires
        stripes@.len() > 0,
        stripes@[0]@.len() > 0,
        padded_height(stripes_schedule(stripe_views(stripes@)).len() + 1) * cols::ROW_W
            <= usize::MAX,
    ensures
        trace_runs(r.0, stripes_schedule(stripe_views(stripes@))),
        r.1@.len() == stripes@.len(),
        forall|s: int|
            0 <= s < stripes@.len() ==> (#[trigger] r.1@[s]) == rows_before(
                stripe_views(stripes@),
                s + 1,
            ) - 1,
{
    let ghost views = stripe_views(stripes@);
    let ghost sched = stripes_schedule(views);
    let ghost h = padded_height(sched.len() + 1);
    proof {
        padded_height_is_least_power_of_two(sched.len() + 1);
        assert(h <= h * cols::ROW_W) by (nonlinear_arith)
            requires
                h >= 0,
        ;
        assert(views.take(views.len() as int) =~= views);
        assert(views.take(0) =~= Seq::empty());
        assert(sched.take(0) =~= Seq::empty());
    }
    let n: usize = padded_len(count_rows(stripes) + 1);
    let mut values: Vec<Val> = Vec::new();
    let ghost mut rows: Seq<Seq<u64>> = Seq::empty();
    let mut x: u32 = 0;
    let mut stripe_last: Vec<usize> = Vec::new();
    let mut row_idx: usize = 0;
    let mut s: usize = 0;
    while s < stripes.len()
        invariant
            s <= stripes@.len(),
            stripes@.len() > 0,
            stripes@[0]@.len() > 0,
            views == stripe_views(stripes@),
            views.take(views.len() as int) == views,
            sched == stripes_schedule(views),
            sched.len() < n,
            row_idx == rows_before(views, s as int),
            s > 0 ==> row_idx > 0,
            x == scalar_after(sched.take(row_idx as int)),
            rows.len() == row_idx,
            values@ == flatten_rows(rows),
            forall|r: int|
                0 <= r < row_idx ==> row_matches(
                    #[trigger] rows[r],
                    sched[r],
                    scalar_entering(sched, r),
                ),
            stripe_last@.len() == s,
            forall|k: int|
                0 <= k < s ==> (#[trigger] stripe_last@[k]) == rows_before(views, k + 1) - 1,
        decreases stripes@.len() - s,
    {
        let stripe = &stripes[s];
        let ghost start = row_idx as int;
        proof {
            lemma_stripes_step(views, s as int);
            lemma_rows_monotone(views, s as int, views.len() as int);
            lemma_rows_monotone(views, s + 1, views.len() as int);
            let upto = stripes_schedule(views.take(s + 1));
            assert(sched.take(upto.len() as int) == upto);
            assert forall|k: int| 0 <= k < stripe@.len() implies #[trigger] sched[start + k]
                == stripe_schedule(stripe@)[k] by {
                assert(upto[start + k] == stripe_schedule(stripe@)[k]);
                assert(sched.take(upto.len() as int)[start + k] == sched[start + k]);
            }
        }
        let mut sb: usize = 0;
        while sb < stripe.len()
            invariant
                sb <= stripe@.len(),
                row_idx == start + sb,
                start + stripe@.len() <= sched.len(),
                sched.len() < n,
                forall|k: int|
                    0 <= k < stripe@.len() ==> #[trigger] sched[start + k] == stripe_schedule(
                        stripe@,
                    )[k],
                x == scalar_after(sched.take(row_idx as int)),
                rows.len() == row_idx,
                values@ == flatten_rows(rows),
                forall|r: int|
                    0 <= r < row_idx ==> row_matches(
                        #[trigger] rows[r],
                        sched[r],
                        scalar_entering(sched, r),
                    ),
            decreases stripe@.len() - sb,
        {
            let in4 = stripe[sb];
            if sb == 0 {
                x = 0;
            }
            proof {
                assert(sched[start + sb] == stripe_schedule(stripe@)[sb as int]);
                assert(sched.take(row_idx + 1).drop_last() =~= sched.take(row_idx as int));
                assert(sched.take(row_idx + 1).last() == sched[row_idx as int]);
            }
            let (row, new) = active_row(&in4, x, sb == 0);
            push_row(&mut values, &row);
            proof {
                lemma_flatten_push(rows, row@);
                rows = rows.push(row@);
            }
            x = new;
            row_idx = row_idx + 1;
            sb = sb + 1;
        }
        stripe_last.push(row_idx - 1);
        s = s + 1;
    }
    assert(sched.take(row_idx as int) =~= sched);
    while row_idx < n
        invariant
            sched.len() <= row_idx <= n,
            x == scalar_after(sched),
            rows.len() == row_idx,
            values@ == flatten_rows(rows),
            forall|r: int|
                0 <= r < row_idx ==> row_matches(
                    #[trigger] rows[r],
                    if r < sched.len() {
                        sched[r]
                    } else {
                        TrRow::Idle { reset: false }
                    },
                    scalar_entering(sched, r),
                ),
        decreases n - row_idx,
    {
        let row = idle_row(x);
        push_row(&mut values, &row);
        proof {
            lemma_flatten_push(rows, row@);
            rows = rows.push(row@);
        }
        row_idx = row_idx + 1;
    }
    let m = RowMajorMatrix { values, width: cols::ROW_W };
    proof {
        lemma_matrix_rows(m, rows);
        assert forall|r: int| 0 <= r < m.spec_height() implies row_matches(
            #[trigger] m.row(r),
            if r < sched.len() {
                sched[r]
            } else {
                TrRow::Idle { reset: false }
            },
            scalar_entering(sched, r),
        ) by {
            assert(m.row(r) == rows[r]);
        }
    }
    (m, stripe_last)
}

/// The new value on a row of a trace, cut to 32 bits.
pub fn new_at_row(trace: &RowMajorMatrix, row: usize) -> (x: u32)
    requires
        row * cols::ROW_W + cols::NEW < trace.values@.len(),
    ensures
        x == trace.values@[row * cols::ROW_W + cols::NEW] as u32,
{
    let len: usize = trace.values.len();
    assert(row * cols::ROW_W <= len);
    #[verifier::truncate]
    (trace.values[row * cols::ROW_W + cols::NEW] as u32)
}

} // verus!
