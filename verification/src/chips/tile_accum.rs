//! The tile-accumulator chip: the accumulator of a whole tile, held across
//! stripes.
//!
//! Each active row adds one sub-block's inner products to that sub-block's four
//! cells and passes every other cell through:
//!
//! ```text
//!   ACC_next[c] = ACC[c] * (1 - SB_SEL[c / 4] * IS_RESET) + SB_SEL[c / 4] * DOT[c % 4]
//! ```
//!
//! Rows of the first stripe restart their sub-block.

pub mod cols;
pub mod laws;

use vstd::prelude::*;
use vstd::wrapping::i32_specs;

use crate::air::{
    all_bool, all_zero, is_bool, sum_cells, sum_expr, ConstraintBuilder, Expr, Rows, Window,
};
use crate::chips::selector::one_hot;
use crate::composite_layout::{
    TA_ACC_START, TA_DOT_START, TA_IS_ACTIVE, TA_IS_RESET, TA_SB_SEL_START,
};
use crate::composite_public::goldilocks_to_i32;
use crate::field::{canonical, decode_i32, enc, is_zero, Val};
use crate::matrix::{
    flatten_rows, lemma_flatten_push, lemma_matrix_rows, padded_height,
    padded_height_is_least_power_of_two, padded_len, push_row, val_of_i32, val_of_u32, zero_row,
    RowMajorMatrix,
};

verus! {

/// Cells of one sub-block.
pub const SB_CELLS: usize = 4;

/// Most sub-blocks of a tile.
pub const MAX_SB: usize = 64;

/// Most cells of a tile.
pub const MAX_CELLS: usize = 256;

/// The tile-accumulator chip.
#[derive(Debug, Default, Clone, Copy)]
pub struct TileAccumChip;

/// Columns of the tile-accumulator chip.
#[derive(Copy, Clone, Debug)]
pub struct TileAccumOffsets {
    pub is_active: usize,
    pub is_reset: usize,
    pub sb_sel: usize,
    pub dot: usize,
    pub acc: usize,
    /// Number of sub-blocks laid out.
    pub n_sb: usize,
}

impl TileAccumOffsets {
    /// The columns of the stand-alone chip.
    pub open spec fn local() -> TileAccumOffsets {
        TileAccumOffsets {
            is_active: cols::IS_ACTIVE,
            is_reset: cols::IS_RESET,
            sb_sel: cols::SB_SEL,
            dot: cols::DOT,
            acc: cols::ACC,
            n_sb: MAX_SB,
        }
    }

    /// The columns in the composite trace.
    pub open spec fn composite() -> TileAccumOffsets {
        TileAccumOffsets {
            is_active: TA_IS_ACTIVE,
            is_reset: TA_IS_RESET,
            sb_sel: TA_SB_SEL_START,
            dot: TA_DOT_START,
            acc: TA_ACC_START,
            n_sb: MAX_SB,
        }
    }

    /// Every column index can be computed.
    pub open spec fn fits(self) -> bool {
        &&& self.sb_sel + self.n_sb <= usize::MAX
        &&& self.dot + 4 <= usize::MAX
        &&& self.acc + self.n_sb * 4 <= usize::MAX
    }

    /// Every column lies within a row.
    pub open spec fn within(self, width: int) -> bool {
        &&& self.is_active < width
        &&& self.is_reset < width
        &&& self.sb_sel + self.n_sb <= width
        &&& self.dot + 4 <= width
        &&& self.acc + self.n_sb * 4 <= width
    }
}

/// The cell of the row below: the same cell, restarted where its sub-block is
/// selected on a reset row, plus the inner product where it is selected.
pub open spec fn cell_rule(off: TileAccumOffsets, w: Window, c: int) -> bool {
    let sel = w.cur[off.sb_sel + c / 4];
    let keep = 1 - sel * w.cur[off.is_reset as int];
    is_zero(w.nxt[off.acc + c] - (w.cur[off.acc + c] * keep + sel * w.cur[off.dot + c % 4]))
}

/// The constraints of the tile-accumulator chip at one window.
pub open spec fn tile_accum_rules(off: TileAccumOffsets, w: Window) -> bool {
    &&& is_bool(w.cur[off.is_active as int] as int)
    &&& is_bool(w.cur[off.is_reset as int] as int)
    &&& all_bool(w.cur, off.sb_sel as int, off.n_sb as int)
    &&& is_zero(
        sum_cells(w.cur, off.sb_sel as int, off.n_sb as nat) - w.cur[off.is_active as int],
    )
    &&& is_zero(w.cur[off.is_reset as int] * (1 - w.cur[off.is_active as int]))
    &&& w.first ==> all_zero(w.cur, off.acc as int, off.n_sb * 4)
    &&& !w.last ==> forall|c: int| 0 <= c < off.n_sb * 4 ==> #[trigger] cell_rule(off, w, c)
}

impl TileAccumChip {
    /// The columns of the stand-alone chip.
    pub fn local_offsets() -> (off: TileAccumOffsets)
        ensures
            off == TileAccumOffsets::local(),
    {
        TileAccumOffsets {
            is_active: cols::IS_ACTIVE,
            is_reset: cols::IS_RESET,
            sb_sel: cols::SB_SEL,
            dot: cols::DOT,
            acc: cols::ACC,
            n_sb: MAX_SB,
        }
    }

    /// The columns in the composite trace.
    pub fn composite_offsets() -> (off: TileAccumOffsets)
        ensures
            off == TileAccumOffsets::composite(),
    {
        TileAccumOffsets {
            is_active: TA_IS_ACTIVE,
            is_reset: TA_IS_RESET,
            sb_sel: TA_SB_SEL_START,
            dot: TA_DOT_START,
            acc: TA_ACC_START,
            n_sb: MAX_SB,
        }
    }

    /// The number of columns of the stand-alone chip.
    pub fn width(&self) -> (n: usize)
        ensures
            n == cols::ROW_W,
    {
        cols::ROW_W
    }

    /// Emits the constraints of the stand-alone chip.
    pub fn eval(&self, builder: &mut ConstraintBuilder)
        ensures
            forall|w: Window| #[trigger]
                final(builder).holds(w) <==> (old(builder).holds(w) && tile_accum_rules(
                    TileAccumOffsets::local(),
                    w,
                )),
            forall|d: nat|
                d >= 3 && old(builder).degree_at_most(d) ==> #[trigger] final(builder).degree_at_most(d),
    {
        let off = Self::local_offsets();
        Self::eval_at(builder, &off);
    }

    /// Emits the constraints in the composite trace.
    pub fn eval_composite(builder: &mut ConstraintBuilder)
        ensures
            forall|w: Window| #[trigger]
                final(builder).holds(w) <==> (old(builder).holds(w) && tile_accum_rules(
                    TileAccumOffsets::composite(),
                    w,
                )),
            forall|d: nat|
                d >= 3 && old(builder).degree_at_most(d) ==> #[trigger] final(builder).degree_at_most(d),
    {
        let off = Self::composite_offsets();
        Self::eval_at(builder, &off);
    }

    /// Emits the constraint on one cell of the row below.
    fn emit_cell(builder: &mut ConstraintBuilder, off: &TileAccumOffsets, c: usize)
        requires
            off.fits(),
            c < off.n_sb * 4,
        ensures
            forall|w: Window| #[trigger]
                final(builder).holds(w) <==> (old(builder).holds(w) && (!w.last ==> cell_rule(
                    *off,
                    w,
                    c as int,
                ))),
            forall|d: nat|
                d >= 3 && old(builder).degree_at_most(d) ==> #[trigger] final(builder).degree_at_most(d),
    {
        let sb: usize = c / SB_CELLS;
        let pos: usize = c % SB_CELLS;
        let restart = Expr::cur(off.sb_sel + sb).times(Expr::cur(off.is_reset));
        let keep = Expr::constant(1).minus(restart);
        let kept = Expr::cur(off.acc + c).times(keep);
        let added = Expr::cur(off.sb_sel + sb).times(Expr::cur(off.dot + pos));
        let e = Expr::next(off.acc + c).minus(kept.plus(added));
        builder.assert_zero_on(Rows::Transition, e);
        assert forall|w: Window| #[trigger]
            builder.holds(w) <==> (old(builder).holds(w) && (!w.last ==> cell_rule(
                *off,
                w,
                c as int,
            ))) by {
            assert(restart.value(w) == w.cur[off.sb_sel + sb] * w.cur[off.is_reset as int]);
            assert(kept.value(w) == w.cur[off.acc + c] * keep.value(w));
            assert(added.value(w) == w.cur[off.sb_sel + sb] * w.cur[off.dot + pos]);
            assert(e.value(w) == w.nxt[off.acc + c] - (kept.value(w) + added.value(w)));
        }
    }

    /// Emits the constraints at the given columns.
    pub fn eval_at(builder: &mut ConstraintBuilder, off: &TileAccumOffsets)
        requires
            off.fits(),
        ensures
            forall|w: Window| #[trigger]
                final(builder).holds(w) <==> (old(builder).holds(w) && tile_accum_rules(*off, w)),
            forall|d: nat|
                d >= 3 && old(builder).degree_at_most(d) ==> #[trigger] final(builder).degree_at_most(d),
    {
        builder.assert_bool(off.is_active);
        let ghost b1 = *builder;
        builder.assert_bool(off.is_reset);
        let ghost b2 = *builder;
        builder.assert_bools(off.sb_sel, off.n_sb);
        let ghost b3 = *builder;
        builder.assert_eq(sum_expr(off.sb_sel, off.n_sb), Expr::cur(off.is_active));
        let ghost b4 = *builder;
        // A padding row must not restart anything.
        let padding = Expr::constant(1).minus(Expr::cur(off.is_active));
        let stray = Expr::cur(off.is_reset).times(padding);
        builder.assert_zero(stray);
        let ghost b5 = *builder;
        let cells: usize = off.n_sb * SB_CELLS;
        builder.assert_zeros_first(off.acc, cells);
        let ghost b6 = *builder;
        let mut c: usize = 0;
        while c < cells
            invariant
                c <= cells,
                cells == off.n_sb * 4,
                off.fits(),
                forall|w: Window| #[trigger]
                    builder.holds(w) <==> (b6.holds(w) && (!w.last ==> (forall|k: int|
                        0 <= k < c ==> #[trigger] cell_rule(*off, w, k)))),
                forall|d: nat|
                    d >= 3 && b6.degree_at_most(d) ==> #[trigger] builder.degree_at_most(d),
            decreases cells - c,
        {
            let ghost before = *builder;
            Self::emit_cell(builder, off, c);
            c = c + 1;
            assert forall|w: Window| #[trigger]
                builder.holds(w) <==> (b6.holds(w) && (!w.last ==> (forall|k: int|
                    0 <= k < c ==> #[trigger] cell_rule(*off, w, k)))) by {
                assert(builder.holds(w) <==> (before.holds(w) && (!w.last ==> cell_rule(
                    *off,
                    w,
                    c - 1,
                ))));
            }
        }
        assert forall|w: Window| #[trigger]
            builder.holds(w) <==> (old(builder).holds(w) && tile_accum_rules(*off, w)) by {
            assert(b1.holds(w) <==> (old(builder).holds(w) && is_bool(
                w.cur[off.is_active as int] as int,
            )));
            assert(b2.holds(w) <==> (b1.holds(w) && is_bool(w.cur[off.is_reset as int] as int)));
            assert(b3.holds(w) <==> (b2.holds(w) && all_bool(
                w.cur,
                off.sb_sel as int,
                off.n_sb as int,
            )));
            assert(b4.holds(w) <==> (b3.holds(w) && is_zero(
                sum_cells(w.cur, off.sb_sel as int, off.n_sb as nat)
                    - w.cur[off.is_active as int],
            )));
            assert(stray.value(w) == w.cur[off.is_reset as int] * padding.value(w));
            assert(b5.holds(w) <==> (b4.holds(w) && is_zero(stray.value(w))));
            assert(b6.holds(w) <==> (b5.holds(w) && (w.first ==> all_zero(
                w.cur,
                off.acc as int,
                off.n_sb * 4,
            ))));
        }
    }
}

/// An accumulator of zeros.
pub open spec fn empty_acc(n: nat) -> Seq<i32> {
    Seq::new(n, |c: int| 0i32)
}

/// An accumulator after one sub-block takes its inner products: restarted, or
/// added with wrap-around.
pub open spec fn add_dot(acc: Seq<i32>, sb: int, dot: Seq<i32>, reset: bool) -> Seq<i32> {
    Seq::new(
        acc.len(),
        |c: int|
            if c / 4 == sb {
                if reset {
                    dot[c % 4]
                } else {
                    i32_specs::wrapping_add(acc[c], dot[c % 4])
                }
            } else {
                acc[c]
            },
    )
}

/// What a row of a trace does.
pub ghost enum TaRow {
    /// Gives a sub-block its inner products, from zero where `reset` is set.
    Active { sb: int, dot: Seq<i32>, reset: bool },
    /// Holds the accumulator.
    Idle,
}

/// The accumulator that leaves the last row of a schedule.
pub open spec fn held_after(sched: Seq<TaRow>, n: nat) -> Seq<i32>
    decreases sched.len(),
{
    if sched.len() == 0 {
        empty_acc(n)
    } else {
        let before = held_after(sched.drop_last(), n);
        match sched.last() {
            TaRow::Idle => before,
            TaRow::Active { sb, dot, reset } => add_dot(before, sb, dot, reset),
        }
    }
}

/// The schedule of one stripe, the first of which restarts its sub-blocks.
pub open spec fn stripe_schedule(stripe: Seq<[i32; SB_CELLS]>, first: bool) -> Seq<TaRow> {
    Seq::new(stripe.len(), |i: int| TaRow::Active { sb: i, dot: stripe[i]@, reset: first })
}

/// The schedule of a list of stripes.
pub open spec fn dots_schedule(dots: Seq<Seq<[i32; SB_CELLS]>>) -> Seq<TaRow>
    decreases dots.len(),
{
    if dots.len() == 0 {
        Seq::empty()
    } else {
        dots_schedule(dots.drop_last()) + stripe_schedule(dots.last(), dots.len() == 1)
    }
}

/// The rows that the first stripes take.
pub open spec fn rows_before(dots: Seq<Seq<[i32; SB_CELLS]>>, s: int) -> nat {
    dots_schedule(dots.take(s)).len()
}

/// The stripes as sequences.
pub open spec fn dot_views(dots: Seq<Vec<[i32; SB_CELLS]>>) -> Seq<Seq<[i32; SB_CELLS]>> {
    Seq::new(dots.len(), |s: int| dots[s]@)
}

/// The four cells of one sub-block.
pub open spec fn sub_block(acc: Seq<i32>, sb: int) -> Seq<i32> {
    Seq::new(4, |i: int| acc[sb * 4 + i])
}

/// A row holds what its place in a schedule asks for.
pub open spec fn row_matches(row: Seq<u64>, kind: TaRow, acc: Seq<i32>) -> bool {
    &&& row.len() == cols::ROW_W
    &&& canonical(row)
    &&& forall|j: int|
        cols::ACC <= j < cols::ACC + 256 ==> (#[trigger] row[j]) == if j - cols::ACC < acc.len() {
            enc(acc[j - cols::ACC] as int)
        } else {
            0
        }
    &&& match kind {
        TaRow::Active { sb, dot, reset } => {
            &&& row[cols::IS_ACTIVE as int] == 1
            &&& row[cols::IS_RESET as int] == if reset {
                1int
            } else {
                0int
            }
            &&& one_hot(row, cols::SB_SEL as int, 64, sb)
            &&& forall|i: int| 0 <= i < 4 ==> row[cols::DOT + i] == enc(#[trigger] dot[i] as int)
        },
        TaRow::Idle => forall|j: int| 0 <= j < cols::ACC ==> #[trigger] row[j] == 0,
    }
}

/// A trace runs a schedule: each row holds what the schedule asks for, and the
/// rows after it hold the last accumulator.
pub open spec fn trace_runs(m: RowMajorMatrix, sched: Seq<TaRow>, n: nat) -> bool {
    &&& m.wf()
    &&& m.width == cols::ROW_W
    &&& m.spec_height() == padded_height(sched.len() + 1)
    &&& forall|r: int|
        0 <= r < m.spec_height() ==> row_matches(
            #[trigger] m.row(r),
            if r < sched.len() {
                sched[r]
            } else {
                TaRow::Idle
            },
            if r < sched.len() {
                held_after(sched.take(r), n)
            } else {
                held_after(sched, n)
            },
        )
}

/// One more stripe adds its rows.
pub proof fn lemma_stripes_step(dots: Seq<Seq<[i32; SB_CELLS]>>, s: int)
    requires
        0 <= s < dots.len(),
    ensures
        dots_schedule(dots.take(s + 1)) == dots_schedule(dots.take(s)) + stripe_schedule(
            dots[s],
            s == 0,
        ),
        rows_before(dots, s + 1) == rows_before(dots, s) + dots[s].len(),
{
    assert(dots.take(s + 1).drop_last() =~= dots.take(s));
}

/// A later stripe starts no earlier.
pub proof fn lemma_rows_monotone(dots: Seq<Seq<[i32; SB_CELLS]>>, s: int, k: int)
    requires
        0 <= s <= k <= dots.len(),
    ensures
        rows_before(dots, s) <= rows_before(dots, k),
        dots_schedule(dots.take(k)).take(rows_before(dots, s) as int) == dots_schedule(
            dots.take(s),
        ),
    decreases k - s,
{
    if s < k {
        lemma_rows_monotone(dots, s, k - 1);
        lemma_stripes_step(dots, k - 1);
        let shorter = dots_schedule(dots.take(k - 1));
        assert(dots_schedule(dots.take(k)).take(rows_before(dots, s) as int) =~= shorter.take(
            rows_before(dots, s) as int,
        ));
    } else {
        assert(dots_schedule(dots.take(k)).take(rows_before(dots, s) as int) =~= dots_schedule(
            dots.take(s),
        ));
    }
}

/// The rows of one stripe within the whole schedule.
pub proof fn lemma_stripe_rows(dots: Seq<Seq<[i32; SB_CELLS]>>, s: int)
    requires
        0 <= s < dots.len(),
    ensures
        rows_before(dots, s) + dots[s].len() <= dots_schedule(dots).len(),
        rows_before(dots, s + 1) == rows_before(dots, s) + dots[s].len(),
        forall|k: int|
            0 <= k < dots[s].len() ==> #[trigger] dots_schedule(dots)[rows_before(dots, s) + k] == (
            TaRow::Active { sb: k, dot: dots[s][k]@, reset: s == 0 }),
{
    let n = dots.len() as int;
    let sched = dots_schedule(dots);
    let start = rows_before(dots, s) as int;
    lemma_stripes_step(dots, s);
    lemma_rows_monotone(dots, s + 1, n);
    assert(dots.take(n) =~= dots);
    let upto = dots_schedule(dots.take(s + 1));
    assert forall|k: int| 0 <= k < dots[s].len() implies #[trigger] sched[start + k] == (
    TaRow::Active { sb: k, dot: dots[s][k]@, reset: s == 0 }) by {
        assert(sched.take(upto.len() as int)[start + k] == sched[start + k]);
        assert(upto[start + k] == stripe_schedule(dots[s], s == 0)[k]);
    }
}

/// The accumulator after one more row of a schedule.
pub proof fn lemma_held_step(sched: Seq<TaRow>, n: nat, r: int)
    requires
        0 <= r < sched.len(),
    ensures
        held_after(sched.take(r + 1), n) == match sched[r] {
            TaRow::Idle => held_after(sched.take(r), n),
            TaRow::Active { sb, dot, reset } => add_dot(
                held_after(sched.take(r), n),
                sb,
                dot,
                reset,
            ),
        },
{
    assert(sched.take(r + 1).drop_last() =~= sched.take(r));
    assert(sched.take(r + 1).last() == sched[r]);
}

/// An accumulator keeps its size.
pub proof fn lemma_held_len(sched: Seq<TaRow>, n: nat)
    ensures
        held_after(sched, n).len() == n,
    decreases sched.len(),
{
    if sched.len() > 0 {
        lemma_held_len(sched.drop_last(), n);
    }
}

/// Gives a sub-block its inner products.
fn apply_dot(acc: &mut Vec<i32>, sb: usize, dot: &[i32; SB_CELLS], reset: bool)
    requires
        sb * 4 + 4 <= old(acc).len(),
    ensures
        final(acc)@ == add_dot(old(acc)@, sb as int, dot@, reset),
{
    let mut i: usize = 0;
    while i < SB_CELLS
        invariant
            i <= 4,
            sb * 4 + 4 <= acc.len(),
            acc@.len() == old(acc)@.len(),
            forall|c: int|
                0 <= c < acc@.len() ==> #[trigger] acc@[c] == if sb * 4 <= c < sb * 4 + i {
                    add_dot(old(acc)@, sb as int, dot@, reset)[c]
                } else {
                    old(acc)@[c]
                },
        decreases 4 - i,
    {
        let cell: usize = sb * SB_CELLS + i;
        proof {
            assert(cell / 4 == sb && cell % 4 == i);
            assert(acc@[cell as int] == old(acc)@[cell as int]);
        }
        acc[cell] = if reset {
            dot[i]
        } else {
            acc[cell].wrapping_add(dot[i])
        };
        i = i + 1;
    }
    assert(acc@ =~= add_dot(old(acc)@, sb as int, dot@, reset));
}

/// An accumulator of zeros.
fn zero_acc(n: usize) -> (acc: Vec<i32>)
    ensures
        acc@ == empty_acc(n as nat),
{
    let mut acc: Vec<i32> = Vec::new();
    let mut i: usize = 0;
    while i < n
        invariant
            i <= n,
            acc@ =~= empty_acc(i as nat),
        decreases n - i,
    {
        acc.push(0);
        i = i + 1;
    }
    acc
}

/// The accumulator after all stripes, and the four cells of each sub-block
/// right after each of its updates. The sub-blocks restart at the first
/// stripe; later sums wrap around.
pub fn ref_accumulate(n_sb: usize, dots: &[Vec<[i32; SB_CELLS]>]) -> (r: (
    Vec<i32>,
    Vec<Vec<[i32; SB_CELLS]>>,
))
    requires
        n_sb * 4 <= usize::MAX,
        forall|s: int| 0 <= s < dots@.len() ==> (#[trigger] dots@[s])@.len() <= n_sb,
    ensures
        r.0@ == held_after(dots_schedule(dot_views(dots@)), (n_sb * 4) as nat),
        r.1@.len() == dots@.len(),
        forall|s: int| 0 <= s < dots@.len() ==> (#[trigger] r.1@[s])@.len() == dots@[s]@.len(),
        forall|s: int, sb: int|
            0 <= s < dots@.len() && 0 <= sb < dots@[s]@.len() ==> (#[trigger] r.1@[s]@[sb])@
                == sub_block(
                held_after(
                    dots_schedule(dot_views(dots@)).take(
                        rows_before(dot_views(dots@), s) + sb + 1,
                    ),
                    (n_sb * 4) as nat,
                ),
                sb,
            ),
{
    let ghost views = dot_views(dots@);
    let ghost sched = dots_schedule(views);
    let ghost n = (n_sb * 4) as nat;
    let mut acc = zero_acc(n_sb * SB_CELLS);
    let mut per: Vec<Vec<[i32; SB_CELLS]>> = Vec::new();
    let mut s: usize = 0;
    proof {
        assert(views.take(0) =~= Seq::empty());
        assert(sched.take(0) =~= Seq::empty());
    }
    while s < dots.len()
        invariant
            s <= dots@.len(),
            n_sb * 4 <= usize::MAX,
            n == n_sb * 4,
            views == dot_views(dots@),
            sched == dots_schedule(views),
            forall|k: int| 0 <= k < dots@.len() ==> (#[trigger] dots@[k])@.len() <= n_sb,
            acc@ == held_after(sched.take(rows_before(views, s as int) as int), n),
            per@.len() == s,
            forall|k: int| 0 <= k < s ==> (#[trigger] per@[k])@.len() == dots@[k]@.len(),
            forall|k: int, sb: int|
                0 <= k < s && 0 <= sb < dots@[k]@.len() ==> (#[trigger] per@[k]@[sb])@
                    == sub_block(
                    held_after(sched.take(rows_before(views, k) + sb + 1), n),
                    sb,
                ),
        decreases dots@.len() - s,
    {
        let stripe = &dots[s];
        let ghost start = rows_before(views, s as int) as int;
        let mut cells: Vec<[i32; SB_CELLS]> = Vec::new();
        let mut sb: usize = 0;
        proof {
            lemma_stripe_rows(views, s as int);
        }
        while sb < stripe.len()
            invariant
                sb <= stripe@.len(),
                stripe@.len() <= n_sb,
                n_sb * 4 <= usize::MAX,
                n == n_sb * 4,
                s < dots@.len(),
                0 <= start,
                start + stripe@.len() <= sched.len(),
                forall|k: int|
                    0 <= k < stripe@.len() ==> #[trigger] sched[start + k] == (TaRow::Active {
                        sb: k,
                        dot: stripe@[k]@,
                        reset: s == 0,
                    }),
                acc@ == held_after(sched.take(start + sb), n),
                cells@.len() == sb,
                forall|k: int|
                    0 <= k < sb ==> (#[trigger] cells@[k])@ == sub_block(
                        held_after(sched.take(start + k + 1), n),
                        k,
                    ),
            decreases stripe@.len() - sb,
        {
            proof {
                lemma_held_len(sched.take(start + sb), n);
                assert(sched[start + sb] == (TaRow::Active {
                    sb: sb as int,
                    dot: stripe@[sb as int]@,
                    reset: s == 0,
                }));
                lemma_held_step(sched, n, start + sb);
            }
            apply_dot(&mut acc, sb, &stripe[sb], s == 0);
            let base: usize = sb * SB_CELLS;
            let four: [i32; SB_CELLS] = [acc[base], acc[base + 1], acc[base + 2], acc[base + 3]];
            proof {
                lemma_held_len(sched.take(start + sb + 1), n);
                assert(four@ =~= sub_block(held_after(sched.take(start + sb + 1), n), sb as int));
            }
            cells.push(four);
            sb = sb + 1;
        }
        per.push(cells);
        proof {
            assert forall|k: int, i: int|
                0 <= k < s + 1 && 0 <= i < dots@[k]@.len() implies (#[trigger] per@[k]@[i])@
                == sub_block(held_after(sched.take(rows_before(views, k) + i + 1), n), i) by {}
        }
        s = s + 1;
    }
    proof {
        assert(views.take(views.len() as int) =~= views);
        assert(sched.take(sched.len() as int) =~= sched);
    }
    (acc, per)
}

/// Writes an accumulator into a row.
fn set_acc(row: &mut Vec<Val>, acc: &Vec<i32>)
    requires
        old(row)@.len() == cols::ROW_W,
        acc@.len() <= 256,
        canonical(old(row)@),
    ensures
        final(row)@.len() == cols::ROW_W,
        canonical(final(row)@),
        forall|j: int|
            0 <= j < cols::ROW_W ==> (#[trigger] final(row)@[j]) == if cols::ACC <= j < cols::ACC
                + acc@.len() {
                enc(acc@[j - cols::ACC] as int)
            } else {
                old(row)@[j] as int
            },
{
    let mut c: usize = 0;
    while c < acc.len()
        invariant
            c <= acc@.len() <= 256,
            row@.len() == cols::ROW_W,
            canonical(row@),
            forall|j: int|
                0 <= j < cols::ROW_W ==> (#[trigger] row@[j]) == if cols::ACC <= j < cols::ACC
                    + c {
                    enc(acc@[j - cols::ACC] as int)
                } else {
                    old(row)@[j] as int
                },
        decreases acc@.len() - c,
    {
        row[cols::ACC + c] = val_of_i32(acc[c]);
        c = c + 1;
    }
}

/// A row that holds an accumulator.
fn idle_row(acc: &Vec<i32>) -> (row: Vec<Val>)
    requires
        acc@.len() <= 256,
    ensures
        row_matches(row@, TaRow::Idle, acc@),
{
    let mut row = zero_row(cols::ROW_W);
    set_acc(&mut row, acc);
    row
}

/// A row that gives a sub-block its inner products.
fn active_row(sb: usize, dot: &[i32; SB_CELLS], acc: &Vec<i32>, reset: bool) -> (row: Vec<Val>)
    requires
        sb < 64,
        acc@.len() <= 256,
    ensures
        row_matches(row@, TaRow::Active { sb: sb as int, dot: dot@, reset }, acc@),
{
    let mut row = zero_row(cols::ROW_W);
    row[cols::IS_ACTIVE] = val_of_u32(1);
    if reset {
        row[cols::IS_RESET] = val_of_u32(1);
    }
    row[cols::SB_SEL + sb] = val_of_u32(1);
    let mut i: usize = 0;
    let ghost before = row@;
    while i < SB_CELLS
        invariant
            i <= 4,
            before.len() == cols::ROW_W,
            canonical(before),
            row@.len() == cols::ROW_W,
            canonical(row@),
            forall|k: int| 0 <= k < i ==> row@[cols::DOT + k] == enc(#[trigger] dot@[k] as int),
            forall|j: int|
                0 <= j < cols::ROW_W && !(cols::DOT <= j < cols::DOT + i) ==> #[trigger] row@[j]
                    == before[j],
        decreases 4 - i,
    {
        row[cols::DOT + i] = val_of_i32(dot[i]);
        i = i + 1;
    }
    let ghost mid = row@;
    set_acc(&mut row, acc);
    proof {
        assert forall|k: int| 0 <= k < 4 implies row@[cols::DOT + k] == enc(
            #[trigger] dot@[k] as int,
        ) by {
            assert(row@[cols::DOT + k] == mid[cols::DOT + k]);
        }
        assert forall|j: int| 0 <= j < cols::DOT implies #[trigger] row@[j] == before[j] by {
            assert(row@[j] == mid[j]);
        }
        assert forall|j: int|
            cols::ACC + acc@.len() <= j < cols::ACC + 256 implies #[trigger] row@[j] == 0 by {
            assert(row@[j] == mid[j]);
            assert(mid[j] == before[j]);
        }
    }
    row
}

/// The rows that a list of stripes takes, one for each sub-block.
fn count_rows(dots: &[Vec<[i32; SB_CELLS]>]) -> (n: usize)
    requires
        dots_schedule(dot_views(dots@)).len() < usize::MAX,
    ensures
        n == dots_schedule(dot_views(dots@)).len(),
{
    let ghost views = dot_views(dots@);
    let mut n: usize = 0;
    let mut s: usize = 0;
    assert(views.take(0) =~= Seq::empty());
    assert(views.take(views.len() as int) =~= views);
    while s < dots.len()
        invariant
            s <= dots@.len(),
            views == dot_views(dots@),
            views.take(views.len() as int) == views,
            dots_schedule(views).len() < usize::MAX,
            n == rows_before(views, s as int),
        decreases dots@.len() - s,
    {
        proof {
            lemma_stripes_step(views, s as int);
            lemma_rows_monotone(views, s + 1, views.len() as int);
        }
        n = n + dots[s].len();
        s = s + 1;
    }
    n
}

/// The trace of a list of stripes: one active row per sub-block and stripe,
/// then rows that hold the accumulator, up to a power of two of at least four
/// rows.
pub fn build_trace(n_sb: usize, dots: &[Vec<[i32; SB_CELLS]>]) -> (m: RowMajorMatrix)
    requires
        n_sb <= MAX_SB,
        forall|s: int| 0 <= s < dots@.len() ==> (#[trigger] dots@[s])@.len() <= n_sb,
        dots_schedule(dot_views(dots@)).len() > 0,
        padded_height(dots_schedule(dot_views(dots@)).len() + 1) * cols::ROW_W <= usize::MAX,
    ensures
        trace_runs(m, dots_schedule(dot_views(dots@)), (n_sb * 4) as nat),
{
    let ghost views = dot_views(dots@);
    let ghost sched = dots_schedule(views);
    let ghost cells = (n_sb * 4) as nat;
    let ghost h = padded_height(sched.len() + 1);
    proof {
        padded_height_is_least_power_of_two(sched.len() + 1);
        assert(h <= h * cols::ROW_W) by (nonlinear_arith)
            requires
                h >= 0,
        ;
        assert(views.take(views.len() as int) =~= views);
        assert(views.take(0) =~= Seq::empty());
        assert(sched.take(0) =~= Seq::empty());
    }
    let n: usize = padded_len(count_rows(dots) + 1);
    let mut values: Vec<Val> = Vec::new();
    let ghost mut rows: Seq<Seq<u64>> = Seq::empty();
    let mut acc = zero_acc(n_sb * SB_CELLS);
    let ghost mut row_idx: int = 0;
    let mut s: usize = 0;
    while s < dots.len()
        invariant
            s <= dots@.len(),
            n_sb <= MAX_SB,
            cells == n_sb * 4,
            views == dot_views(dots@),
            views.take(views.len() as int) == views,
            sched == dots_schedule(views),
            forall|k: int| 0 <= k < dots@.len() ==> (#[trigger] dots@[k])@.len() <= n_sb,
            row_idx == rows_before(views, s as int),
            acc@ == held_after(sched.take(row_idx), cells),
            rows.len() == row_idx,
            values@ == flatten_rows(rows),
            forall|r: int|
                0 <= r < row_idx ==> row_matches(
                    #[trigger] rows[r],
                    sched[r],
                    held_after(sched.take(r), cells),
                ),
        decreases dots@.len() - s,
    {
        let stripe = &dots[s];
        let ghost start = row_idx;
        proof {
            lemma_stripe_rows(views, s as int);
        }
        let mut sb: usize = 0;
        while sb < stripe.len()
            invariant
                sb <= stripe@.len(),
                stripe@.len() <= n_sb,
                n_sb <= MAX_SB,
                cells == n_sb * 4,
                s < dots@.len(),
                row_idx == start + sb,
                start + stripe@.len() <= sched.len(),
                forall|k: int|
                    0 <= k < stripe@.len() ==> #[trigger] sched[start + k] == (TaRow::Active {
                        sb: k,
                        dot: stripe@[k]@,
                        reset: s == 0,
                    }),
                acc@ == held_after(sched.take(row_idx), cells),
                rows.len() == row_idx,
                values@ == flatten_rows(rows),
                forall|r: int|
                    0 <= r < row_idx ==> row_matches(
                        #[trigger] rows[r],
                        sched[r],
                        held_after(sched.take(r), cells),
                    ),
            decreases stripe@.len() - sb,
        {
            proof {
                lemma_held_len(sched.take(row_idx), cells);
                assert(sched[start + sb] == (TaRow::Active {
                    sb: sb as int,
                    dot: stripe@[sb as int]@,
                    reset: s == 0,
                }));
                lemma_held_step(sched, cells, row_idx);
            }
            let row = active_row(sb, &stripe[sb], &acc, s == 0);
            push_row(&mut values, &row);
            apply_dot(&mut acc, sb, &stripe[sb], s == 0);
            proof {
                lemma_flatten_push(rows, row@);
                rows = rows.push(row@);
                row_idx = row_idx + 1;
            }
            sb = sb + 1;
        }
        s = s + 1;
    }
    proof {
        assert(sched.take(row_idx) =~= sched);
        lemma_held_len(sched, cells);
    }
    let mut r: usize = count_rows(dots);
    while r < n
        invariant
            sched.len() <= r <= n,
            cells <= 256,
            acc@ == held_after(sched, cells),
            acc@.len() == cells,
            rows.len() == r,
            values@ == flatten_rows(rows),
            forall|k: int|
                0 <= k < r ==> row_matches(
                    #[trigger] rows[k],
                    if k < sched.len() {
                        sched[k]
                    } else {
                        TaRow::Idle
                    },
                    if k < sched.len() {
                        held_after(sched.take(k), cells)
                    } else {
                        held_after(sched, cells)
                    },
                ),
        decreases n - r,
    {
        let row = idle_row(&acc);
        push_row(&mut values, &row);
        proof {
            lemma_flatten_push(rows, row@);
            rows = rows.push(row@);
        }
        r = r + 1;
    }
    let m = RowMajorMatrix { values, width: cols::ROW_W };
    proof {
        lemma_matrix_rows(m, rows);
        assert forall|k: int| 0 <= k < m.spec_height() implies row_matches(
            #[trigger] m.row(k),
            if k < sched.len() {
                sched[k]
            } else {
                TaRow::Idle
            },
            if k < sched.len() {
                held_after(sched.take(k), cells)
            } else {
                held_after(sched, cells)
            },
        ) by {
            assert(m.row(k) == rows[k]);
        }
    }
    m
}

/// The accumulator that a row of a trace carries, each cell read as a signed
/// word.
pub fn acc_at_row(trace: &RowMajorMatrix, row: usize, n_cells: usize) -> (acc: Vec<i32>)
    requires
        row * cols::ROW_W + cols::ACC + n_cells <= trace.values@.len(),
    ensures
        acc@.len() == n_cells,
        forall|c: int|
            0 <= c < n_cells ==> #[trigger] acc@[c] == decode_i32(
                trace.values@[row * cols::ROW_W + cols::ACC + c],
            ),
{
    let len: usize = trace.values.len();
    assert(row * cols::ROW_W <= len);
    let base: usize = row * cols::ROW_W + cols::ACC;
    let mut acc: Vec<i32> = Vec::new();
    let mut c: usize = 0;
    while c < n_cells
        invariant
            c <= n_cells,
            base == row * cols::ROW_W + cols::ACC,
            base + n_cells <= trace.values.len(),
            acc@.len() == c,
            forall|k: int|
                0 <= k < c ==> #[trigger] acc@[k] == decode_i32(
                    trace.values@[row * cols::ROW_W + cols::ACC + k],
                ),
        decreases n_cells - c,
    {
        acc.push(goldilocks_to_i32(trace.values[base + c]));
        c = c + 1;
    }
    acc
}

} // verus!
