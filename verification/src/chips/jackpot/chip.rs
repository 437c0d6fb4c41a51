//! Constraints and trace of the jackpot chip.
//!
//! On an active row a one-hot selector picks a slot, whose bits are rotated by
//! thirteen and folded with the bits of a word:
//!
//! ```text
//!   next[slot] = rotl13(state[slot]) ^ x
//!   next[i]    = state[i]              (i != slot)
//! ```
//!
//! The update binds active rows only, so that a row after an inactive one can
//! carry a freshly placed state.

pub mod cols;
pub mod laws;

use vstd::arithmetic::power::pow;
use vstd::prelude::*;

use crate::air::{
    all_bool, dot_cells, dot_expr, is_bool, polyval, polyval_expr, sum_cells, sum_expr,
    ConstraintBuilder, Expr, Rows, Window,
};
use crate::bits::has_bits;
use crate::chips::jackpot::compute::{
    apply_jackpot_step, bit_decompose_u32, jackpot_step, one_hot_select,
};
use crate::chips::parity::lemma_pow_small;
use crate::composite_layout::{
    BIT_REG_START, IS_HASH_JACKPOT, JACKPOT_MSG_START, JACKPOT_SIZE, JACKPOT_SLOT_SEL_START,
    JACKPOT_X_BITS_START, LROT_PER_TILE,
};
use crate::field::{canonical, is_zero, Val};
use crate::matrix::{
    flatten_rows, lemma_flatten_push, lemma_matrix_rows, padded_height,
    padded_height_is_least_power_of_two, padded_len, push_row, val_of_u32, zero_row,
    RowMajorMatrix,
};

verus! {

/// The jackpot chip.
#[derive(Copy, Clone, Debug, Default)]
pub struct JackpotChip;

/// Columns of the jackpot chip.
#[derive(Copy, Clone, Debug)]
pub struct JackpotOffsets {
    pub jackpot_msg_start: usize,
    pub v_bits_start: usize,
    pub x_bits_start: usize,
    pub slot_sel_start: usize,
    pub is_active_col: usize,
}

impl JackpotOffsets {
    /// The columns of the stand-alone chip.
    pub open spec fn local() -> JackpotOffsets {
        JackpotOffsets {
            jackpot_msg_start: cols::JACKPOT_MSG,
            v_bits_start: cols::V_BITS,
            x_bits_start: cols::X_BITS,
            slot_sel_start: cols::SLOT_SEL,
            is_active_col: cols::IS_ACTIVE,
        }
    }

    /// The columns in the composite trace.
    pub open spec fn composite() -> JackpotOffsets {
        JackpotOffsets {
            jackpot_msg_start: JACKPOT_MSG_START,
            v_bits_start: BIT_REG_START,
            x_bits_start: JACKPOT_X_BITS_START,
            slot_sel_start: JACKPOT_SLOT_SEL_START,
            is_active_col: IS_HASH_JACKPOT,
        }
    }

    /// Every column index can be computed.
    pub open spec fn fits(self) -> bool {
        &&& self.jackpot_msg_start + 16 <= usize::MAX
        &&& self.v_bits_start + 32 <= usize::MAX
        &&& self.x_bits_start + 32 <= usize::MAX
        &&& self.slot_sel_start + 16 <= usize::MAX
    }

    /// Every column lies within a row.
    pub open spec fn within(self, width: int) -> bool {
        &&& self.jackpot_msg_start + 16 <= width
        &&& self.v_bits_start + 32 <= width
        &&& self.x_bits_start + 32 <= width
        &&& self.slot_sel_start + 16 <= width
        &&& self.is_active_col < width
    }
}

/// The exclusive or of two bit cells, as a polynomial: `v + x - 2xv`, with
/// `v` taken thirteen positions below.
pub open spec fn xor_cell(off: JackpotOffsets, s: Seq<u64>, i: int) -> int {
    let v = s[off.v_bits_start + (i + 19) % 32];
    let x = s[off.x_bits_start + i];
    v + x - x * v * 2
}

/// The rotated and folded word, as a polynomial in the bits.
pub open spec fn rotated_xor(off: JackpotOffsets, s: Seq<u64>, n: nat) -> int
    decreases n,
{
    if n == 0 {
        0
    } else {
        rotated_xor(off, s, (n - 1) as nat) + xor_cell(off, s, n - 1) * pow(2, (n - 1) as nat)
    }
}

/// The slot of the row below an active row.
pub open spec fn slot_rule(off: JackpotOffsets, w: Window, i: int) -> bool {
    let sel = w.cur[off.slot_sel_start + i];
    let old = w.cur[off.jackpot_msg_start + i];
    is_zero(
        w.cur[off.is_active_col as int] * (w.nxt[off.jackpot_msg_start + i] - (sel * rotated_xor(
            off,
            w.cur,
            32,
        ) + (1 - sel) * old)),
    )
}

/// The constraints of the jackpot chip at one window.
pub open spec fn jackpot_rules(off: JackpotOffsets, w: Window) -> bool {
    let active = w.cur[off.is_active_col as int];
    &&& is_bool(active as int)
    &&& all_bool(w.cur, off.slot_sel_start as int, 16)
    &&& all_bool(w.cur, off.v_bits_start as int, 32)
    &&& all_bool(w.cur, off.x_bits_start as int, 32)
    &&& is_zero(sum_cells(w.cur, off.slot_sel_start as int, 16) - active)
    &&& is_zero(
        active * (dot_cells(
            w.cur,
            off.slot_sel_start as int,
            w.cur,
            off.jackpot_msg_start as int,
            16,
        ) - polyval(w.cur, off.v_bits_start as int, 32, 2)),
    )
    &&& !w.last ==> forall|i: int| 0 <= i < 16 ==> #[trigger] slot_rule(off, w, i)
}

/// The rotated and folded word, as a polynomial.
fn rotated_xor_expr(off: &JackpotOffsets) -> (r: Expr)
    requires
        off.fits(),
    ensures
        forall|w: Window| #[trigger] r.value(w) == rotated_xor(*off, w.cur, 32),
        r.degree() <= 2,
{
    let mut acc = Expr::constant(0);
    let mut weight: u64 = 1;
    let mut i: usize = 0;
    proof {
        vstd::arithmetic::power::lemma_pow0(2);
        lemma_pow_small();
    }
    while i < 32
        invariant
            i <= 32,
            off.fits(),
            pow(2, 32) == 0x1_0000_0000,
            weight == pow(2, i as nat),
            forall|w: Window| #[trigger] acc.value(w) == rotated_xor(*off, w.cur, i as nat),
            acc.degree() <= 2,
        decreases 32 - i,
    {
        let ghost before = acc;
        let src: usize = (i + 32 - (LROT_PER_TILE as usize)) % 32;
        let sum = Expr::cur(off.v_bits_start + src).plus(Expr::cur(off.x_bits_start + i));
        let product = Expr::cur(off.x_bits_start + i).times(Expr::cur(off.v_bits_start + src));
        let both = product.times(Expr::constant(2));
        let bit = sum.minus(both);
        let term = bit.times(Expr::constant(weight));
        acc = acc.plus(term);
        proof {
            vstd::arithmetic::power::lemma_pow_increases(2, (i + 1) as nat, 32);
            vstd::arithmetic::power::lemma_pow_adds(2, i as nat, 1);
            vstd::arithmetic::power::lemma_pow1(2);
        }
        weight = weight * 2;
        i = i + 1;
        assert forall|w: Window| #[trigger]
            acc.value(w) == rotated_xor(*off, w.cur, i as nat) by {
            assert(before.value(w) == rotated_xor(*off, w.cur, (i - 1) as nat));
            assert(product.value(w) == w.cur[off.x_bits_start + i - 1] * w.cur[off.v_bits_start
                + src]);
            assert(both.value(w) == product.value(w) * 2);
            assert(sum.value(w) == w.cur[off.v_bits_start + src] + w.cur[off.x_bits_start + i
                - 1]);
            assert(bit.value(w) == xor_cell(*off, w.cur, i - 1));
            assert(term.value(w) == bit.value(w) * pow(2, (i - 1) as nat));
            assert(acc.value(w) == before.value(w) + term.value(w));
        }
    }
    acc
}

impl JackpotChip {
    /// The columns of the stand-alone chip.
    pub fn local_offsets() -> (off: JackpotOffsets)
        ensures
            off == JackpotOffsets::local(),
    {
        JackpotOffsets {
            jackpot_msg_start: cols::JACKPOT_MSG,
            v_bits_start: cols::V_BITS,
            x_bits_start: cols::X_BITS,
            slot_sel_start: cols::SLOT_SEL,
            is_active_col: cols::IS_ACTIVE,
        }
    }

    /// The columns in the composite trace.
    pub fn composite_offsets() -> (off: JackpotOffsets)
        ensures
            off == JackpotOffsets::composite(),
    {
        JackpotOffsets {
            jackpot_msg_start: JACKPOT_MSG_START,
            v_bits_start: BIT_REG_START,
            x_bits_start: JACKPOT_X_BITS_START,
            slot_sel_start: JACKPOT_SLOT_SEL_START,
            is_active_col: IS_HASH_JACKPOT,
        }
    }

    /// The number of columns of the stand-alone chip.
    pub fn width(&self) -> (n: usize)
        ensures
            n == cols::ROW_W,
    {
        cols::ROW_W
    }

    /// Emits the constraints of the stand-alone chip.
    pub fn eval(&self, builder: &mut ConstraintBuilder)
        ensures
            forall|w: Window| #[trigger]
                final(builder).holds(w) <==> (old(builder).holds(w) && jackpot_rules(
                    JackpotOffsets::local(),
                    w,
                )),
            forall|d: nat|
                d >= 4 && old(builder).degree_at_most(d) ==> #[trigger] final(builder).degree_at_most(d),
    {
        let off = Self::local_offsets();
        Self::eval_at(builder, &off);
    }

    /// Emits the constraints in the composite trace.
    pub fn eval_composite(builder: &mut ConstraintBuilder)
        ensures
            forall|w: Window| #[trigger]
                final(builder).holds(w) <==> (old(builder).holds(w) && jackpot_rules(
                    JackpotOffsets::composite(),
                    w,
                )),
            forall|d: nat|
                d >= 4 && old(builder).degree_at_most(d) ==> #[trigger] final(builder).degree_at_most(d),
    {
        let off = Self::composite_offsets();
        Self::eval_at(builder, &off);
    }

    /// Emits the constraint on one slot of the row below.
    fn emit_slot(builder: &mut ConstraintBuilder, off: &JackpotOffsets, rotated: &Expr, i: usize)
        requires
            off.fits(),
            i < 16,
            rotated.degree() <= 2,
            forall|w: Window| #[trigger] rotated.value(w) == rotated_xor(*off, w.cur, 32),
        ensures
            forall|w: Window| #[trigger]
                final(builder).holds(w) <==> (old(builder).holds(w) && (!w.last ==> slot_rule(
                    *off,
                    w,
                    i as int,
                ))),
            forall|d: nat|
                d >= 4 && old(builder).degree_at_most(d) ==> #[trigger] final(builder).degree_at_most(d),
    {
        let updated = Expr::cur(off.slot_sel_start + i).times(rotated.dup());
        let unselected = Expr::constant(1).minus(Expr::cur(off.slot_sel_start + i));
        let kept = unselected.times(Expr::cur(off.jackpot_msg_start + i));
        let diff = Expr::next(off.jackpot_msg_start + i).minus(updated.plus(kept));
        let e = Expr::cur(off.is_active_col).times(diff);
        builder.assert_zero_on(Rows::Transition, e);
        assert forall|w: Window| #[trigger]
            builder.holds(w) <==> (old(builder).holds(w) && (!w.last ==> slot_rule(
                *off,
                w,
                i as int,
            ))) by {
            assert(updated.value(w) == w.cur[off.slot_sel_start + i] * rotated.value(w));
            assert(kept.value(w) == unselected.value(w) * w.cur[off.jackpot_msg_start + i]);
            assert(diff.value(w) == w.nxt[off.jackpot_msg_start + i] - (updated.value(w)
                + kept.value(w)));
            assert(e.value(w) == w.cur[off.is_active_col as int] * diff.value(w));
        }
    }

    /// Emits the constraints at the given columns.
    pub fn eval_at(builder: &mut ConstraintBuilder, off: &JackpotOffsets)
        requires
            off.fits(),
        ensures
            forall|w: Window| #[trigger]
                final(builder).holds(w) <==> (old(builder).holds(w) && jackpot_rules(*off, w)),
            forall|d: nat|
                d >= 4 && old(builder).degree_at_most(d) ==> #[trigger] final(builder).degree_at_most(d),
    {
        proof {
            lemma_pow_small();
        }
        builder.assert_bool(off.is_active_col);
        let ghost b1 = *builder;
        builder.assert_bools(off.slot_sel_start, 16);
        let ghost b2 = *builder;
        builder.assert_bools(off.v_bits_start, 32);
        let ghost b3 = *builder;
        builder.assert_bools(off.x_bits_start, 32);
        let ghost b4 = *builder;
        builder.assert_eq(sum_expr(off.slot_sel_start, 16), Expr::cur(off.is_active_col));
        let ghost b5 = *builder;
        let selected = dot_expr(off.slot_sel_start, off.jackpot_msg_start, JACKPOT_SIZE);
        let diff = selected.minus(polyval_expr(off.v_bits_start, 32, 2));
        let e = Expr::cur(off.is_active_col).times(diff);
        builder.assert_zero(e);
        let ghost b6 = *builder;
        let rotated = rotated_xor_expr(off);
        let mut i: usize = 0;
        while i < JACKPOT_SIZE
            invariant
                i <= 16,
                off.fits(),
                rotated.degree() <= 2,
                forall|w: Window| #[trigger] rotated.value(w) == rotated_xor(*off, w.cur, 32),
                forall|w: Window| #[trigger]
                    builder.holds(w) <==> (b6.holds(w) && (!w.last ==> (forall|k: int|
                        0 <= k < i ==> #[trigger] slot_rule(*off, w, k)))),
                forall|d: nat|
                    d >= 4 && b6.degree_at_most(d) ==> #[trigger] builder.degree_at_most(d),
            decreases 16 - i,
        {
            let ghost before = *builder;
            Self::emit_slot(builder, off, &rotated, i);
            i = i + 1;
            assert forall|w: Window| #[trigger]
                builder.holds(w) <==> (b6.holds(w) && (!w.last ==> (forall|k: int|
                    0 <= k < i ==> #[trigger] slot_rule(*off, w, k)))) by {
                assert(builder.holds(w) <==> (before.holds(w) && (!w.last ==> slot_rule(
                    *off,
                    w,
                    i - 1,
                ))));
            }
        }
        assert forall|w: Window| #[trigger]
            builder.holds(w) <==> (old(builder).holds(w) && jackpot_rules(*off, w)) by {
            let s = w.cur;
            assert(b1.holds(w) <==> (old(builder).holds(w) && is_bool(
                s[off.is_active_col as int] as int,
            )));
            assert(b2.holds(w) <==> (b1.holds(w) && all_bool(s, off.slot_sel_start as int, 16)));
            assert(b3.holds(w) <==> (b2.holds(w) && all_bool(s, off.v_bits_start as int, 32)));
            assert(b4.holds(w) <==> (b3.holds(w) && all_bool(s, off.x_bits_start as int, 32)));
            assert(b5.holds(w) <==> (b4.holds(w) && is_zero(
                sum_cells(s, off.slot_sel_start as int, 16) - s[off.is_active_col as int],
            )));
            assert(e.value(w) == s[off.is_active_col as int] * diff.value(w));
            assert(b6.holds(w) <==> (b5.holds(w) && is_zero(e.value(w))));
        }
    }
}

/// One step of the jackpot.
#[derive(Clone, Copy, Debug)]
pub struct Step {
    /// The slot to update.
    pub selected_slot: usize,
    /// The word folded into the slot.
    pub x: u32,
    /// Whether the step updates anything.
    pub is_active: bool,
}

/// A row holds a state and what its step needs.
pub open spec fn row_matches(
    row: Seq<u64>,
    state: Seq<u32>,
    slot: int,
    x: u32,
    active: bool,
) -> bool {
    &&& row.len() == cols::ROW_W
    &&& forall|i: int| 0 <= i < 16 ==> row[cols::JACKPOT_MSG + i] == #[trigger] state[i]
    &&& has_bits(
        row,
        cols::V_BITS as int,
        if active {
            state[slot]
        } else {
            0
        },
    )
    &&& has_bits(
        row,
        cols::X_BITS as int,
        if active {
            x
        } else {
            0
        },
    )
    &&& forall|j: int|
        cols::SLOT_SEL <= j < cols::SLOT_SEL + 16 ==> (#[trigger] row[j]) == if active && j
            == cols::SLOT_SEL + slot {
            1int
        } else {
            0int
        }
    &&& row[cols::IS_ACTIVE as int] == if active {
        1int
    } else {
        0int
    }
}

/// Copies words into cells.
fn set_words<const N: usize>(dest: &mut [Val], at: usize, words: &[u32; N])
    requires
        at + N <= old(dest).len(),
    ensures
        final(dest)@.len() == old(dest)@.len(),
        forall|j: int| at <= j < at + N ==> (#[trigger] final(dest)@[j]) == words@[j - at],
        forall|j: int|
            0 <= j < old(dest)@.len() && !(at <= j < at + N) ==> #[trigger] final(dest)@[j]
                == old(dest)@[j],
{
    let mut i: usize = 0;
    while i < N
        invariant
            i <= N,
            words@.len() == N,
            at + N <= dest.len(),
            dest@.len() == old(dest)@.len(),
            forall|j: int| at <= j < at + i ==> (#[trigger] dest@[j]) == words@[j - at],
            forall|j: int|
                0 <= j < old(dest)@.len() && !(at <= j < at + i) ==> #[trigger] dest@[j] == old(
                    dest,
                )@[j],
        decreases N - i,
    {
        dest[at + i] = val_of_u32(words[i]);
        i = i + 1;
    }
}

/// Writes one row: the state it sees, and the slot, word and flag of its step.
pub fn fill_row(
    dest: &mut [Val],
    state: &[u32; JACKPOT_SIZE],
    selected_slot: usize,
    x: u32,
    is_active: bool,
)
    requires
        old(dest)@.len() == cols::ROW_W,
        is_active ==> selected_slot < JACKPOT_SIZE,
    ensures
        row_matches(final(dest)@, state@, selected_slot as int, x, is_active),
        canonical(final(dest)@),
{
    set_words(dest, cols::JACKPOT_MSG, state);
    let ghost d1 = dest@;
    let v_bits = if is_active {
        bit_decompose_u32(state[selected_slot])
    } else {
        bit_decompose_u32(0)
    };
    set_words(dest, cols::V_BITS, &v_bits);
    let ghost d2 = dest@;
    let x_bits = if is_active {
        bit_decompose_u32(x)
    } else {
        bit_decompose_u32(0)
    };
    set_words(dest, cols::X_BITS, &x_bits);
    let ghost d3 = dest@;
    let unit: [u32; JACKPOT_SIZE] = if is_active {
        one_hot_select(selected_slot)
    } else {
        [0u32;16]
    };
    set_words(dest, cols::SLOT_SEL, &unit);
    let ghost d4 = dest@;
    dest[cols::IS_ACTIVE] = val_of_u32(
        if is_active {
            1
        } else {
            0
        },
    );
    proof {
        let s = dest@;
        assert forall|j: int| 0 <= j < 16 implies #[trigger] s[j] == state@[j] by {
            assert(s[j] == d4[j]);
            assert(d4[j] == d3[j]);
            assert(d3[j] == d2[j]);
            assert(d2[j] == d1[j]);
        }
        assert forall|j: int| cols::V_BITS <= j < cols::V_BITS + 32 implies #[trigger] s[j]
            == v_bits@[j - cols::V_BITS] by {
            assert(s[j] == d4[j]);
            assert(d4[j] == d3[j]);
            assert(d3[j] == d2[j]);
        }
        assert forall|j: int| cols::X_BITS <= j < cols::X_BITS + 32 implies #[trigger] s[j]
            == x_bits@[j - cols::X_BITS] by {
            assert(s[j] == d4[j]);
            assert(d4[j] == d3[j]);
        }
        assert forall|j: int| cols::SLOT_SEL <= j < cols::SLOT_SEL + 16 implies #[trigger] s[j]
            == unit@[j - cols::SLOT_SEL] by {
            assert(s[j] == d4[j]);
        }
    }
}

/// The state that enters each step.
pub open spec fn state_before(initial: Seq<u32>, steps: Seq<Step>, r: int) -> Seq<u32>
    decreases r,
{
    if r <= 0 {
        initial
    } else {
        let step = steps[r - 1];
        jackpot_step(
            state_before(initial, steps, r - 1),
            step.selected_slot as int,
            step.x,
            step.is_active,
        )
    }
}

/// A trace runs a list of steps: one row for each, then rows of zeros.
pub open spec fn trace_runs(m: RowMajorMatrix, initial: Seq<u32>, steps: Seq<Step>) -> bool {
    &&& m.wf()
    &&& m.width == cols::ROW_W
    &&& m.spec_height() == padded_height(steps.len())
    &&& forall|r: int|
        0 <= r < steps.len() ==> row_matches(
            #[trigger] m.row(r),
            state_before(initial, steps, r),
            steps[r].selected_slot as int,
            steps[r].x,
            steps[r].is_active,
        )
    &&& forall|r: int, c: int|
        steps.len() <= r < m.spec_height() && 0 <= c < cols::ROW_W ==> #[trigger] m.row(r)[c] == 0
}

/// The trace of a list of steps from an initial state, padded with rows of
/// zeros to a power of two of at least four rows.
pub fn build_trace(initial: &[u32; JACKPOT_SIZE], steps: &[Step]) -> (m: RowMajorMatrix)
    requires
        forall|i: int|
            0 <= i < steps@.len() ==> ((#[trigger] steps@[i]).is_active ==> steps@[i].selected_slot
                < JACKPOT_SIZE),
        padded_height(steps@.len()) * cols::ROW_W <= usize::MAX,
    ensures
        trace_runs(m, initial@, steps@),
{
    let ghost h = padded_height(steps@.len());
    proof {
        padded_height_is_least_power_of_two(steps@.len());
        assert(h <= h * cols::ROW_W) by (nonlinear_arith)
            requires
                h >= 0,
        ;
    }
    let n: usize = padded_len(steps.len());
    let mut values: Vec<Val> = Vec::new();
    let ghost mut rows: Seq<Seq<u64>> = Seq::empty();
    let mut state: [u32; JACKPOT_SIZE] = *initial;
    let mut r: usize = 0;
    while r < steps.len()
        invariant
            r <= steps@.len(),
            forall|i: int|
                0 <= i < steps@.len() ==> ((#[trigger] steps@[i]).is_active
                    ==> steps@[i].selected_slot < JACKPOT_SIZE),
            state@ == state_before(initial@, steps@, r as int),
            rows.len() == r,
            values@ == flatten_rows(rows),
            forall|k: int|
                0 <= k < r ==> canonical(#[trigger] rows[k]) && row_matches(
                    rows[k],
                    state_before(initial@, steps@, k),
                    steps@[k].selected_slot as int,
                    steps@[k].x,
                    steps@[k].is_active,
                ),
        decreases steps@.len() - r,
    {
        let step = steps[r];
        let mut row = zero_row(cols::ROW_W);
        fill_row(row.as_mut_slice(), &state, step.selected_slot, step.x, step.is_active);
        push_row(&mut values, &row);
        proof {
            lemma_flatten_push(rows, row@);
            rows = rows.push(row@);
        }
        state = apply_jackpot_step(&state, step.selected_slot, step.x, step.is_active);
        r = r + 1;
    }
    while r < n
        invariant
            steps@.len() <= r <= n,
            rows.len() == r,
            values@ == flatten_rows(rows),
            forall|k: int|
                0 <= k < steps@.len() ==> row_matches(
                    #[trigger] rows[k],
                    state_before(initial@, steps@, k),
                    steps@[k].selected_slot as int,
                    steps@[k].x,
                    steps@[k].is_active,
                ),
            forall|k: int|
                0 <= k < r ==> (#[trigger] rows[k]).len() == cols::ROW_W && canonical(rows[k]),
            forall|k: int, c: int|
                steps@.len() <= k < r && 0 <= c < cols::ROW_W ==> #[trigger] rows[k][c] == 0,
        decreases n - r,
    {
        let row = zero_row(cols::ROW_W);
        push_row(&mut values, &row);
        proof {
            lemma_flatten_push(rows, row@);
            rows = rows.push(row@);
        }
        r = r + 1;
    }
    let m = RowMajorMatrix { values, width: cols::ROW_W };
    proof {
        lemma_matrix_rows(m, rows);
        assert forall|k: int| 0 <= k < steps@.len() implies row_matches(
            #[trigger] m.row(k),
            state_before(initial@, steps@, k),
            steps@[k].selected_slot as int,
            steps@[k].x,
            steps@[k].is_active,
        ) by {
            assert(m.row(k) == rows[k]);
        }
        assert forall|k: int, c: int|
            steps@.len() <= k < m.spec_height() && 0 <= c < cols::ROW_W implies #[trigger] m.row(
            k,
        )[c] == 0 by {
            assert(m.row(k) == rows[k]);
        }
    }
    m
}

} // verus!
