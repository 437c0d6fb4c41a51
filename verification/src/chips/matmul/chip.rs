//! Constraints and trace of the matrix chip.
//!
//! The accumulator of the row below is
//!
//! ```text
//!   cumsum_next = (is_reset + is_update) * dot + (1 - is_reset) * cumsum
//! ```
//!
//! that is the inner product after a reset, the sum after an update, and the
//! same value after a row that is neither.

pub mod cols;
pub mod laws;

use vstd::prelude::*;

use crate::air::{
    dot_cells, dot_expr, is_bool, ConstraintBuilder, Expr, Rows, Window,
};
use crate::chips::matmul::compute::{compute_row, row_result, CUMSUM_LEN};
use crate::composite_layout::{
    A_NOISED_UNPACK_START, B_NOISED_UNPACK_START, CUMSUM_TILE_START, IS_RESET_CUMSUM,
    IS_UPDATE_CUMSUM, TILE_D, TILE_H,
};
use crate::field::{canonical, enc, is_zero, lemma_enc_feq, p, Val};
use crate::matrix::{
    flatten_rows, lemma_flatten_push, lemma_matrix_rows, padded_height,
    padded_height_is_least_power_of_two, padded_len, push_row, val_of_i32, val_of_u32, zero_row,
    RowMajorMatrix,
};

verus! {

/// The matrix chip.
#[derive(Copy, Clone, Debug, Default)]
pub struct MatmulCumsumChip;

/// Columns of the matrix chip.
#[derive(Copy, Clone, Debug)]
pub struct MatmulOffsets {
    pub a_unpack_start: usize,
    pub b_unpack_start: usize,
    pub cumsum_start: usize,
    pub is_reset_col: usize,
    pub is_update_col: usize,
}

impl MatmulOffsets {
    /// The columns of the stand-alone chip.
    pub open spec fn local() -> MatmulOffsets {
        MatmulOffsets {
            a_unpack_start: cols::A_UNPACK,
            b_unpack_start: cols::B_UNPACK,
            cumsum_start: cols::CUMSUM,
            is_reset_col: cols::IS_RESET_CUMSUM,
            is_update_col: cols::IS_UPDATE_CUMSUM,
        }
    }

    /// The columns in the composite trace.
    pub open spec fn composite() -> MatmulOffsets {
        MatmulOffsets {
            a_unpack_start: A_NOISED_UNPACK_START,
            b_unpack_start: B_NOISED_UNPACK_START,
            cumsum_start: CUMSUM_TILE_START,
            is_reset_col: IS_RESET_CUMSUM,
            is_update_col: IS_UPDATE_CUMSUM,
        }
    }

    /// Every column index can be computed.
    pub open spec fn fits(self) -> bool {
        &&& self.a_unpack_start + 32 <= usize::MAX
        &&& self.b_unpack_start + 32 <= usize::MAX
        &&& self.cumsum_start + 4 <= usize::MAX
    }

    /// Every column lies within a row.
    pub open spec fn within(self, width: int) -> bool {
        &&& self.a_unpack_start + 32 <= width
        &&& self.b_unpack_start + 32 <= width
        &&& self.cumsum_start + 4 <= width
        &&& self.is_reset_col < width
        &&& self.is_update_col < width
    }
}

/// The inner product that goes with an accumulator cell.
pub open spec fn dot_cell(off: MatmulOffsets, s: Seq<u64>, k: int) -> int {
    dot_cells(
        s,
        off.a_unpack_start + (k / 2) * 16,
        s,
        off.b_unpack_start + (k % 2) * 16,
        16,
    )
}

/// The accumulator cell of the row below.
pub open spec fn cumsum_rule(off: MatmulOffsets, w: Window, k: int) -> bool {
    let reset = w.cur[off.is_reset_col as int];
    let update = w.cur[off.is_update_col as int];
    is_zero(
        w.nxt[off.cumsum_start + k] - ((reset + update) * dot_cell(off, w.cur, k) + (1 - reset)
            * w.cur[off.cumsum_start + k]),
    )
}

/// The constraints of the matrix chip at one window.
pub open spec fn matmul_rules(off: MatmulOffsets, w: Window) -> bool {
    &&& is_bool(w.cur[off.is_reset_col as int] as int)
    &&& is_bool(w.cur[off.is_update_col as int] as int)
    &&& !w.last ==> forall|k: int| 0 <= k < 4 ==> #[trigger] cumsum_rule(off, w, k)
}

impl MatmulCumsumChip {
    /// The columns of the stand-alone chip.
    pub fn local_offsets() -> (off: MatmulOffsets)
        ensures
            off == MatmulOffsets::local(),
    {
        MatmulOffsets {
            a_unpack_start: cols::A_UNPACK,
            b_unpack_start: cols::B_UNPACK,
            cumsum_start: cols::CUMSUM,
            is_reset_col: cols::IS_RESET_CUMSUM,
            is_update_col: cols::IS_UPDATE_CUMSUM,
        }
    }

    /// The columns in the composite trace.
    pub fn composite_offsets() -> (off: MatmulOffsets)
        ensures
            off == MatmulOffsets::composite(),
    {
        MatmulOffsets {
            a_unpack_start: A_NOISED_UNPACK_START,
            b_unpack_start: B_NOISED_UNPACK_START,
            cumsum_start: CUMSUM_TILE_START,
            is_reset_col: IS_RESET_CUMSUM,
            is_update_col: IS_UPDATE_CUMSUM,
        }
    }

    /// The number of columns of the stand-alone chip.
    pub fn width(&self) -> (n: usize)
        ensures
            n == cols::ROW_W,
    {
        cols::ROW_W
    }

    /// Emits the constraints of the stand-alone chip.
    pub fn eval(&self, builder: &mut ConstraintBuilder)
        ensures
            forall|w: Window| #[trigger]
                final(builder).holds(w) <==> (old(builder).holds(w) && matmul_rules(
                    MatmulOffsets::local(),
                    w,
                )),
            forall|d: nat|
                d >= 3 && old(builder).degree_at_most(d) ==> #[trigger] final(builder).degree_at_most(d),
    {
        let off = Self::local_offsets();
        Self::eval_at(builder, &off);
    }

    /// Emits the constraints in the composite trace.
    pub fn eval_composite(builder: &mut ConstraintBuilder)
        ensures
            forall|w: Window| #[trigger]
                final(builder).holds(w) <==> (old(builder).holds(w) && matmul_rules(
                    MatmulOffsets::composite(),
                    w,
                )),
            forall|d: nat|
                d >= 3 && old(builder).degree_at_most(d) ==> #[trigger] final(builder).degree_at_most(d),
    {
        let off = Self::composite_offsets();
        Self::eval_at(builder, &off);
    }

    /// Emits the constraint on one accumulator cell of the row below.
    fn emit_cell(builder: &mut ConstraintBuilder, off: &MatmulOffsets, k: usize)
        requires
            off.fits(),
            k < 4,
        ensures
            forall|w: Window| #[trigger]
                final(builder).holds(w) <==> (old(builder).holds(w) && (!w.last ==> cumsum_rule(
                    *off,
                    w,
                    k as int,
                ))),
            forall|d: nat|
                d >= 3 && old(builder).degree_at_most(d) ==> #[trigger] final(builder).degree_at_most(d),
    {
        let a_row: usize = off.a_unpack_start + (k / TILE_H) * TILE_D;
        let b_row: usize = off.b_unpack_start + (k % TILE_H) * TILE_D;
        let dot = dot_expr(a_row, b_row, TILE_D);
        let gate = Expr::cur(off.is_reset_col).plus(Expr::cur(off.is_update_col));
        let added = gate.times(dot);
        let keep = Expr::constant(1).minus(Expr::cur(off.is_reset_col));
        let kept = keep.times(Expr::cur(off.cumsum_start + k));
        let e = Expr::next(off.cumsum_start + k).minus(added.plus(kept));
        builder.assert_zero_on(Rows::Transition, e);
        assert forall|w: Window| #[trigger]
            builder.holds(w) <==> (old(builder).holds(w) && (!w.last ==> cumsum_rule(
                *off,
                w,
                k as int,
            ))) by {
            assert(added.value(w) == gate.value(w) * dot.value(w));
            assert(kept.value(w) == keep.value(w) * w.cur[off.cumsum_start + k]);
            assert(e.value(w) == w.nxt[off.cumsum_start + k] - (added.value(w) + kept.value(w)));
        }
    }

    /// Emits the constraints at the given columns.
    pub fn eval_at(builder: &mut ConstraintBuilder, off: &MatmulOffsets)
        requires
            off.fits(),
        ensures
            forall|w: Window| #[trigger]
                final(builder).holds(w) <==> (old(builder).holds(w) && matmul_rules(*off, w)),
            forall|d: nat|
                d >= 3 && old(builder).degree_at_most(d) ==> #[trigger] final(builder).degree_at_most(d),
    {
        builder.assert_bool(off.is_reset_col);
        let ghost b1 = *builder;
        builder.assert_bool(off.is_update_col);
        let ghost b2 = *builder;
        let mut k: usize = 0;
        while k < CUMSUM_LEN
            invariant
                k <= 4,
                off.fits(),
                forall|w: Window| #[trigger]
                    builder.holds(w) <==> (b2.holds(w) && (!w.last ==> (forall|i: int|
                        0 <= i < k ==> #[trigger] cumsum_rule(*off, w, i)))),
                forall|d: nat|
                    d >= 3 && b2.degree_at_most(d) ==> #[trigger] builder.degree_at_most(d),
            decreases 4 - k,
        {
            let ghost before = *builder;
            Self::emit_cell(builder, off, k);
            k = k + 1;
            assert forall|w: Window| #[trigger]
                builder.holds(w) <==> (b2.holds(w) && (!w.last ==> (forall|i: int|
                    0 <= i < k ==> #[trigger] cumsum_rule(*off, w, i)))) by {
                assert(builder.holds(w) <==> (before.holds(w) && (!w.last ==> cumsum_rule(
                    *off,
                    w,
                    k - 1,
                ))));
            }
        }
        assert forall|w: Window| #[trigger]
            builder.holds(w) <==> (old(builder).holds(w) && matmul_rules(*off, w)) by {
            assert(b1.holds(w) <==> (old(builder).holds(w) && is_bool(
                w.cur[off.is_reset_col as int] as int,
            )));
            assert(b2.holds(w) <==> (b1.holds(w) && is_bool(
                w.cur[off.is_update_col as int] as int,
            )));
        }
    }
}

/// One step of the accumulation.
#[derive(Clone, Debug)]
pub struct Step {
    /// The left tile.
    pub a: [[i8; TILE_D]; TILE_H],
    /// The right tile.
    pub b: [[i8; TILE_D]; TILE_H],
    /// Restart the accumulator.
    pub is_reset: bool,
    /// Add to the accumulator.
    pub is_update: bool,
}

/// The cells from `at` on hold a tile, row by row.
pub open spec fn has_tile(row: Seq<u64>, at: int, tile: Seq<[i8; TILE_D]>) -> bool {
    forall|j: int|
        at <= j < at + 32 ==> (#[trigger] row[j]) == enc(
            tile[(j - at) / 16]@[(j - at) % 16] as int,
        )
}

/// A row holds the tiles, the accumulator and the selectors of a step.
pub open spec fn row_matches(
    row: Seq<u64>,
    a: Seq<[i8; TILE_D]>,
    b: Seq<[i8; TILE_D]>,
    cumsum: Seq<i32>,
    is_reset: bool,
    is_update: bool,
) -> bool {
    &&& row.len() == cols::ROW_W
    &&& has_tile(row, cols::A_UNPACK as int, a)
    &&& has_tile(row, cols::B_UNPACK as int, b)
    &&& forall|k: int| 0 <= k < 4 ==> row[cols::CUMSUM + k] == enc(#[trigger] cumsum[k] as int)
    &&& row[cols::IS_RESET_CUMSUM as int] == if is_reset {
        1int
    } else {
        0int
    }
    &&& row[cols::IS_UPDATE_CUMSUM as int] == if is_update {
        1int
    } else {
        0int
    }
    &&& row[cols::PADDING as int] == 0
}

/// Writes a tile into the cells from `at` on.
fn set_tile(dest: &mut [Val], at: usize, tile: &[[i8; TILE_D]; TILE_H])
    requires
        at + 32 <= old(dest).len(),
    ensures
        final(dest)@.len() == old(dest)@.len(),
        has_tile(final(dest)@, at as int, tile@),
        forall|j: int|
            0 <= j < old(dest)@.len() && !(at <= j < at + 32) ==> #[trigger] final(dest)@[j]
                == old(dest)@[j],
{
    let mut i: usize = 0;
    while i < TILE_H
        invariant
            i <= 2,
            at + 32 <= dest.len(),
            dest@.len() == old(dest)@.len(),
            forall|j: int|
                at <= j < at + i * 16 ==> (#[trigger] dest@[j]) == enc(
                    tile@[(j - at) / 16]@[(j - at) % 16] as int,
                ),
            forall|j: int|
                0 <= j < old(dest)@.len() && !(at <= j < at + 32) ==> #[trigger] dest@[j] == old(
                    dest,
                )@[j],
        decreases 2 - i,
    {
        let mut d: usize = 0;
        while d < TILE_D
            invariant
                i < 2,
                d <= 16,
                at + 32 <= dest.len(),
                dest@.len() == old(dest)@.len(),
                forall|j: int|
                    at <= j < at + i * 16 + d ==> (#[trigger] dest@[j]) == enc(
                        tile@[(j - at) / 16]@[(j - at) % 16] as int,
                    ),
                forall|j: int|
                    0 <= j < old(dest)@.len() && !(at <= j < at + 32) ==> #[trigger] dest@[j]
                        == old(dest)@[j],
            decreases 16 - d,
        {
            dest[at + i * TILE_D + d] = val_of_i32(tile[i][d] as i32);
            proof {
                assert((i * 16 + d) / 16 == i && (i * 16 + d) % 16 == d);
            }
            d = d + 1;
        }
        i = i + 1;
    }
}

/// Writes one row: its tiles, the accumulator it sees and its selectors.
pub fn fill_row(
    dest: &mut [Val],
    a: &[[i8; TILE_D]; TILE_H],
    b: &[[i8; TILE_D]; TILE_H],
    cumsum: &[i32; CUMSUM_LEN],
    is_reset: bool,
    is_update: bool,
)
    requires
        old(dest)@.len() == cols::ROW_W,
    ensures
        row_matches(final(dest)@, a@, b@, cumsum@, is_reset, is_update),
        canonical(final(dest)@),
{
    set_tile(dest, cols::A_UNPACK, a);
    let ghost d1 = dest@;
    set_tile(dest, cols::B_UNPACK, b);
    let ghost d2 = dest@;
    let mut k: usize = 0;
    while k < CUMSUM_LEN
        invariant
            k <= 4,
            dest@.len() == cols::ROW_W,
            d2.len() == cols::ROW_W,
            forall|i: int| 0 <= i < k ==> dest@[cols::CUMSUM + i] == enc(#[trigger] cumsum@[i] as int),
            forall|j: int| 0 <= j < cols::CUMSUM ==> #[trigger] dest@[j] == d2[j],
        decreases 4 - k,
    {
        dest[cols::CUMSUM + k] = val_of_i32(cumsum[k]);
        k = k + 1;
    }
    dest[cols::IS_RESET_CUMSUM] = val_of_u32(
        if is_reset {
            1
        } else {
            0
        },
    );
    dest[cols::IS_UPDATE_CUMSUM] = val_of_u32(
        if is_update {
            1
        } else {
            0
        },
    );
    dest[cols::PADDING] = 0;
    proof {
        let s = dest@;
        assert forall|j: int| 0 <= j < 32 implies (#[trigger] s[j]) == enc(
            a@[(j - 0) / 16]@[(j - 0) % 16] as int,
        ) by {
            assert(s[j] == d2[j]);
            assert(d2[j] == d1[j]);
        }
        assert forall|j: int| 32 <= j < 64 implies (#[trigger] s[j]) == enc(
            b@[(j - 32) / 16]@[(j - 32) % 16] as int,
        ) by {
            assert(s[j] == d2[j]);
        }
        assert forall|j: int| 0 <= j < s.len() implies (#[trigger] s[j]) < p() by {
            if j < 32 {
                lemma_enc_feq(a@[(j - 0) / 16]@[(j - 0) % 16] as int);
            } else if j < 64 {
                lemma_enc_feq(b@[(j - 32) / 16]@[(j - 32) % 16] as int);
            } else if j < 68 {
                lemma_enc_feq(cumsum@[j - 64] as int);
                assert(s[cols::CUMSUM + (j - 64)] == enc(cumsum@[j - 64] as int));
            }
        }
    }
}

/// The accumulator that enters each step, from zero.
pub open spec fn cumsum_before(steps: Seq<Step>, r: int) -> Seq<i32>
    decreases r,
{
    if r <= 0 {
        Seq::new(4, |k: int| 0i32)
    } else {
        let step = steps[r - 1];
        row_result(step.a@, step.b@, cumsum_before(steps, r - 1), step.is_reset, step.is_update)
    }
}

/// A trace runs a list of steps: one row for each, then rows of zeros.
pub open spec fn trace_runs(m: RowMajorMatrix, steps: Seq<Step>) -> bool {
    &&& m.wf()
    &&& m.width == cols::ROW_W
    &&& m.spec_height() == padded_height(steps.len())
    &&& forall|r: int|
        0 <= r < steps.len() ==> row_matches(
            #[trigger] m.row(r),
            steps[r].a@,
            steps[r].b@,
            cumsum_before(steps, r),
            steps[r].is_reset,
            steps[r].is_update,
        )
    &&& forall|r: int, c: int|
        steps.len() <= r < m.spec_height() && 0 <= c < cols::ROW_W ==> #[trigger] m.row(r)[c] == 0
}

/// The trace of a list of steps, padded with rows of zeros to a power of two
/// of at least four rows. Each row carries the accumulator before its step.
pub fn build_trace(steps: &[Step]) -> (m: RowMajorMatrix)
    requires
        padded_height(steps@.len()) * cols::ROW_W <= usize::MAX,
    ensures
        trace_runs(m, steps@),
{
    let ghost h = padded_height(steps@.len());
    proof {
        padded_height_is_least_power_of_two(steps@.len());
        assert(h <= h * cols::ROW_W) by (nonlinear_arith)
            requires
                h >= 0,
        ;
    }
    let n: usize = padded_len(steps.len());
    let mut values: Vec<Val> = Vec::new();
    let ghost mut rows: Seq<Seq<u64>> = Seq::empty();
    let mut cumsum: [i32; CUMSUM_LEN] = [0i32;4];
    let mut r: usize = 0;
    assert(cumsum@ =~= cumsum_before(steps@, 0));
    while r < steps.len()
        invariant
            r <= steps@.len(),
            cumsum@ == cumsum_before(steps@, r as int),
            rows.len() == r,
            values@ == flatten_rows(rows),
            forall|k: int|
                0 <= k < r ==> canonical(#[trigger] rows[k]) && row_matches(
                    rows[k],
                    steps@[k].a@,
                    steps@[k].b@,
                    cumsum_before(steps@, k),
                    steps@[k].is_reset,
                    steps@[k].is_update,
                ),
        decreases steps@.len() - r,
    {
        let step = &steps[r];
        let next = compute_row(&step.a, &step.b, &cumsum, step.is_reset, step.is_update);
        let mut row = zero_row(cols::ROW_W);
        fill_row(
            row.as_mut_slice(),
            &step.a,
            &step.b,
            &cumsum,
            step.is_reset,
            step.is_update,
        );
        push_row(&mut values, &row);
        proof {
            lemma_flatten_push(rows, row@);
            rows = rows.push(row@);
        }
        cumsum = next;
        r = r + 1;
    }
    while r < n
        invariant
            steps@.len() <= r <= n,
            rows.len() == r,
            values@ == flatten_rows(rows),
            forall|k: int|
                0 <= k < steps@.len() ==> row_matches(
                    #[trigger] rows[k],
                    steps@[k].a@,
                    steps@[k].b@,
                    cumsum_before(steps@, k),
                    steps@[k].is_reset,
                    steps@[k].is_update,
                ),
            forall|k: int|
                0 <= k < r ==> (#[trigger] rows[k]).len() == cols::ROW_W && canonical(rows[k]),
            forall|k: int, c: int|
                steps@.len() <= k < r && 0 <= c < cols::ROW_W ==> #[trigger] rows[k][c] == 0,
        decreases n - r,
    {
        let row = zero_row(cols::ROW_W);
        push_row(&mut values, &row);
        proof {
            lemma_flatten_push(rows, row@);
            rows = rows.push(row@);
        }
        r = r + 1;
    }
    let m = RowMajorMatrix { values, width: cols::ROW_W };
    proof {
        lemma_matrix_rows(m, rows);
        assert forall|k: int| 0 <= k < steps@.len() implies row_matches(
            #[trigger] m.row(k),
            steps@[k].a@,
            steps@[k].b@,
            cumsum_before(steps@, k),
            steps@[k].is_reset,
            steps@[k].is_update,
        ) by {
            assert(m.row(k) == rows[k]);
        }
        assert forall|k: int, c: int|
            steps@.len() <= k < m.spec_height() && 0 <= c < cols::ROW_W implies #[trigger] m.row(
            k,
        )[c] == 0 by {
            assert(m.row(k) == rows[k]);
        }
    }
    m
}

} // verus!
