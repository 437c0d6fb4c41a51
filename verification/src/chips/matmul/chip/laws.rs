//! What the matrix constraints say of a trace.

use vstd::arithmetic::div_mod::{lemma_add_mod_noop, lemma_mod_twice};
use vstd::prelude::*;

use crate::air::{dot_cells, is_bool, Window};
use crate::chips::matmul::chip::{
    cols, cumsum_before, cumsum_rule, dot_cell, has_tile, matmul_rules, row_matches, trace_runs,
    MatmulOffsets, Step,
};
use crate::chips::matmul::compute::{
    dot_block, inner_product, lemma_inner_product_bound, lemma_inner_product_is_sum, product_sum,
    row_result, rows_reset_update_or_keep,
};
use crate::composite_layout::TILE_D;
use crate::field::{
    enc, is_zero, lemma_enc_feq, lemma_enc_small, lemma_feq_canonical, lemma_zero_add,
    lemma_zero_mul, p, decode_i32, decode_inverts_encode,
};
use crate::matrix::{lemma_row_canonical, padded_height_is_least_power_of_two, RowMajorMatrix};
use crate::prime::bool_check_is_boolean;

verus! {

/// One transition: each accumulator cell below is the inner product after a
/// reset, the sum after an update, and unchanged after a row that is neither.
/// A row that is both counts its inner product twice.
pub proof fn transition_accumulates(off: MatmulOffsets, w: Window, k: int)
    requires
        w.canonical(),
        off.within(w.cur.len() as int),
        w.nxt.len() == w.cur.len(),
        matmul_rules(off, w),
        !w.last,
        0 <= k < 4,
    ensures
        ({
            let reset = w.cur[off.is_reset_col as int];
            let update = w.cur[off.is_update_col as int];
            let old = w.cur[off.cumsum_start + k];
            let next = w.nxt[off.cumsum_start + k];
            let dot = dot_cell(off, w.cur, k);
            &&& reset == 0 || reset == 1
            &&& update == 0 || update == 1
            &&& reset == 0 && update == 0 ==> next == old
            &&& reset == 0 && update == 1 ==> next == enc(old + dot)
            &&& reset == 1 && update == 0 ==> next == enc(dot)
            &&& reset == 1 && update == 1 ==> next == enc(2 * dot)
        }),
{
    let reset = w.cur[off.is_reset_col as int] as int;
    let update = w.cur[off.is_update_col as int] as int;
    let old = w.cur[off.cumsum_start + k] as int;
    let next = w.nxt[off.cumsum_start + k] as int;
    let dot = dot_cell(off, w.cur, k);
    bool_check_is_boolean(reset);
    bool_check_is_boolean(update);
    assert(cumsum_rule(off, w, k));
    let rhs = (reset + update) * dot + (1 - reset) * old;
    if reset == 0 && update == 0 {
        assert(rhs == old) by (nonlinear_arith)
            requires
                rhs == (reset + update) * dot + (1 - reset) * old,
                reset == 0,
                update == 0,
        ;
        lemma_feq_canonical(next, old);
    } else if reset == 0 {
        assert(rhs == old + dot) by (nonlinear_arith)
            requires
                rhs == (reset + update) * dot + (1 - reset) * old,
                reset == 0,
                update == 1,
        ;
        lemma_enc_feq(rhs);
        lemma_zero_add(next - rhs, rhs - enc(rhs));
        lemma_feq_canonical(next, enc(rhs));
    } else if update == 0 {
        assert(rhs == dot) by (nonlinear_arith)
            requires
                rhs == (reset + update) * dot + (1 - reset) * old,
                reset == 1,
                update == 0,
        ;
        lemma_enc_feq(rhs);
        lemma_zero_add(next - rhs, rhs - enc(rhs));
        lemma_feq_canonical(next, enc(rhs));
    } else {
        assert(rhs == 2 * dot) by (nonlinear_arith)
            requires
                rhs == (reset + update) * dot + (1 - reset) * old,
                reset == 1,
                update == 1,
        ;
        lemma_enc_feq(rhs);
        lemma_zero_add(next - rhs, rhs - enc(rhs));
        lemma_feq_canonical(next, enc(rhs));
    }
}

/// What the rows above a row add up to for an accumulator cell since the last
/// reset, as an integer; before any reset, on top of what the first row holds.
pub open spec fn held_total(off: MatmulOffsets, m: RowMajorMatrix, r: int, k: int) -> int
    decreases r,
{
    if r <= 0 {
        m.row(0)[off.cumsum_start + k] as int
    } else {
        let row = m.row(r - 1);
        let dot = dot_cell(off, row, k);
        let reset = row[off.is_reset_col as int] == 1;
        let update = row[off.is_update_col as int] == 1;
        if reset && update {
            2 * dot
        } else if reset {
            dot
        } else if update {
            held_total(off, m, r - 1, k) + dot
        } else {
            held_total(off, m, r - 1, k)
        }
    }
}

/// In any trace that meets the rules, every accumulator cell is the sum of the
/// inner products of the rows above since the last reset.
pub proof fn accumulator_is_determined(off: MatmulOffsets, m: RowMajorMatrix, r: int, k: int)
    requires
        m.wf(),
        off.within(m.width as int),
        m.satisfies(|w: Window| matmul_rules(off, w)),
        0 <= r < m.spec_height(),
        0 <= k < 4,
    ensures
        m.row(r)[off.cumsum_start + k] == enc(held_total(off, m, r, k)),
    decreases r,
{
    let rule = |w: Window| matmul_rules(off, w);
    lemma_row_canonical(m, r);
    if r == 0 {
        lemma_enc_small(m.row(0)[off.cumsum_start + k] as int);
    } else {
        accumulator_is_determined(off, m, r - 1, k);
        lemma_row_canonical(m, r - 1);
        let v = m.window(r - 1, Seq::empty(), Seq::empty());
        assert(rule(v));
        transition_accumulates(off, v, k);
        let before = held_total(off, m, r - 1, k);
        let dot = dot_cell(off, v.cur, k);
        lemma_add_mod_noop(before, dot, p());
        lemma_add_mod_noop(enc(before), dot, p());
        lemma_mod_twice(before, p());
    }
}

/// The field elements of two integers multiply as the integers do.
proof fn lemma_enc_mul(x: int, y: int)
    ensures
        is_zero(enc(x) * enc(y) - x * y),
{
    lemma_enc_feq(x);
    lemma_enc_feq(y);
    let dx = enc(x) - x;
    let dy = enc(y) - y;
    lemma_zero_mul(dx, enc(y));
    lemma_zero_mul(dy, x);
    lemma_zero_add(dx * enc(y), dy * x);
    assert(enc(x) * enc(y) - x * y == dx * enc(y) + dy * x) by (nonlinear_arith)
        requires
            dx == enc(x) - x,
            dy == enc(y) - y,
    ;
}

/// The inner product of cells that hold bytes is that of the bytes.
proof fn lemma_dot_cells(s: Seq<u64>, at_a: int, at_b: int, a: Seq<i8>, b: Seq<i8>, n: nat)
    requires
        forall|d: int| 0 <= d < n ==> s[at_a + d] == enc(#[trigger] a[d] as int),
        forall|d: int| 0 <= d < n ==> s[at_b + d] == enc(#[trigger] b[d] as int),
    ensures
        is_zero(dot_cells(s, at_a, s, at_b, n) - inner_product(a, b, n)),
    decreases n,
{
    if n > 0 {
        lemma_dot_cells(s, at_a, at_b, a, b, (n - 1) as nat);
        let d = n - 1;
        assert(s[at_a + d] == enc(a[d] as int));
        assert(s[at_b + d] == enc(b[d] as int));
        lemma_enc_mul(a[d] as int, b[d] as int);
        lemma_zero_add(
            dot_cells(s, at_a, s, at_b, (n - 1) as nat) - inner_product(a, b, (n - 1) as nat),
            enc(a[d] as int) * enc(b[d] as int) - a[d] * b[d],
        );
    } else {
        lemma_enc_small(0);
    }
}

/// The inner product of the cells of a filled row.
proof fn lemma_dot_cell(
    s: Seq<u64>,
    a: Seq<[i8; TILE_D]>,
    b: Seq<[i8; TILE_D]>,
    k: int,
)
    requires
        has_tile(s, cols::A_UNPACK as int, a),
        has_tile(s, cols::B_UNPACK as int, b),
        0 <= k < 4,
    ensures
        is_zero(dot_cell(MatmulOffsets::local(), s, k) - dot_block(a, b)[k]),
{
    let i = k / 2;
    let j = k % 2;
    let at_a = cols::A_UNPACK + i * 16;
    let at_b = cols::B_UNPACK + j * 16;
    assert forall|d: int| 0 <= d < 16 implies s[at_a + d] == enc(#[trigger] a[i]@[d] as int) by {
        let c = at_a + d;
        assert((c - cols::A_UNPACK) / 16 == i && (c - cols::A_UNPACK) % 16 == d);
        assert(s[c] == enc(a[(c - cols::A_UNPACK) / 16]@[(c - cols::A_UNPACK) % 16] as int));
    }
    assert forall|d: int| 0 <= d < 16 implies s[at_b + d] == enc(#[trigger] b[j]@[d] as int) by {
        let c = at_b + d;
        assert((c - cols::B_UNPACK) / 16 == j && (c - cols::B_UNPACK) % 16 == d);
        assert(s[c] == enc(b[(c - cols::B_UNPACK) / 16]@[(c - cols::B_UNPACK) % 16] as int));
    }
    lemma_dot_cells(s, at_a, at_b, a[i]@, b[j]@, 16);
}

/// A step has at most one selector set, and its sums stay in the range of a
/// signed word.
pub open spec fn step_ok(steps: Seq<Step>, r: int) -> bool {
    let step = steps[r];
    &&& !(step.is_reset && step.is_update)
    &&& step.is_update ==> forall|k: int|
        0 <= k < 4 ==> i32::MIN <= #[trigger] cumsum_before(steps, r)[k] + dot_block(
            step.a@,
            step.b@,
        )[k] <= i32::MAX
}

/// The rule on one accumulator cell below a filled row.
proof fn lemma_cumsum_rule(
    w: Window,
    a: Seq<[i8; TILE_D]>,
    b: Seq<[i8; TILE_D]>,
    old: Seq<i32>,
    is_reset: bool,
    is_update: bool,
    k: int,
)
    requires
        row_matches(w.cur, a, b, old, is_reset, is_update),
        0 <= k < 4,
        !(is_reset && is_update),
        is_update ==> i32::MIN <= old[k] + dot_block(a, b)[k] <= i32::MAX,
        w.nxt[cols::CUMSUM + k] == enc(row_result(a, b, old, is_reset, is_update)[k] as int),
    ensures
        cumsum_rule(MatmulOffsets::local(), w, k),
{
    let off = MatmulOffsets::local();
    let s = w.cur;
    let reset = s[cols::IS_RESET_CUMSUM as int] as int;
    let update = s[cols::IS_UPDATE_CUMSUM as int] as int;
    let cell = dot_cell(off, s, k);
    let dot = dot_block(a, b)[k];
    let prev = s[cols::CUMSUM + k] as int;
    let next = w.nxt[cols::CUMSUM + k] as int;
    let result = row_result(a, b, old, is_reset, is_update)[k] as int;
    lemma_dot_cell(s, a, b, k);
    lemma_inner_product_bound(a[k / 2]@, b[k % 2]@, 16);
    assert(prev == enc(old[k] as int));
    lemma_enc_feq(old[k] as int);
    lemma_enc_feq(result);
    let e = next - ((reset + update) * cell + (1 - reset) * prev);
    if is_reset {
        assert(e == (next - result) - (cell - dot)) by (nonlinear_arith)
            requires
                e == next - ((reset + update) * cell + (1 - reset) * prev),
                reset == 1,
                update == 0,
                result == dot,
        ;
        lemma_zero_add(next - result, cell - dot);
    } else if is_update {
        assert(result == old[k] + dot);
        assert(e == (next - result) - (cell - dot) - (prev - old[k])) by (nonlinear_arith)
            requires
                e == next - ((reset + update) * cell + (1 - reset) * prev),
                reset == 0,
                update == 1,
                result == old[k] + dot,
        ;
        lemma_zero_add(next - result, cell - dot);
        lemma_zero_add((next - result) - (cell - dot), prev - old[k]);
    } else {
        assert(e == 0) by (nonlinear_arith)
            requires
                e == next - ((reset + update) * cell + (1 - reset) * prev),
                reset == 0,
                update == 0,
                next == prev,
        ;
    }
}

/// A trace of steps meets the rules where the selectors exclude one another,
/// no sum leaves the range of a signed word, and the steps fill the trace or
/// leave a zero accumulator to the padding.
pub proof fn built_trace_meets_rules(m: RowMajorMatrix, steps: Seq<Step>)
    requires
        trace_runs(m, steps),
        forall|r: int| 0 <= r < steps.len() ==> #[trigger] step_ok(steps, r),
        steps.len() == m.spec_height() || cumsum_before(steps, steps.len() as int) == Seq::new(
            4,
            |k: int| 0i32,
        ),
    ensures
        m.satisfies(|w: Window| matmul_rules(MatmulOffsets::local(), w)),
{
    let off = MatmulOffsets::local();
    let rule = |w: Window| matmul_rules(off, w);
    let h = m.spec_height() as int;
    padded_height_is_least_power_of_two(steps.len());
    lemma_enc_small(0);
    assert(is_bool(0) && is_bool(1)) by {
        assert(0 * (0 - 1) == 0);
        assert(1 * (1 - 1) == 0);
    }
    assert forall|r: int| 0 <= r < m.spec_height() implies rule(
        #[trigger] m.window(r, Seq::empty(), Seq::empty()),
    ) by {
        let w = m.window(r, Seq::empty(), Seq::empty());
        if r < steps.len() {
            let step = steps[r];
            let old = cumsum_before(steps, r);
            let next = cumsum_before(steps, r + 1);
            assert(row_matches(m.row(r), step.a@, step.b@, old, step.is_reset, step.is_update));
            assert(step_ok(steps, r));
            if r + 1 < h {
                assert forall|k: int| 0 <= k < 4 implies #[trigger] cumsum_rule(off, w, k) by {
                    assert(next == row_result(
                        step.a@,
                        step.b@,
                        old,
                        step.is_reset,
                        step.is_update,
                    ));
                    if r + 1 < steps.len() {
                        let below = steps[r + 1];
                        assert(row_matches(
                            m.row(r + 1),
                            below.a@,
                            below.b@,
                            next,
                            below.is_reset,
                            below.is_update,
                        ));
                        assert(w.nxt[cols::CUMSUM + k] == enc(next[k] as int));
                    } else {
                        assert(m.row(r + 1)[cols::CUMSUM + k] == 0);
                        assert(next[k] == 0);
                    }
                    assert(step.is_update ==> i32::MIN <= old[k] + dot_block(step.a@, step.b@)[k]
                        <= i32::MAX);
                    lemma_cumsum_rule(
                        w,
                        step.a@,
                        step.b@,
                        old,
                        step.is_reset,
                        step.is_update,
                        k,
                    );
                }
            }
        } else {
            assert(m.row(r)[cols::IS_RESET_CUMSUM as int] == 0);
            assert(m.row(r)[cols::IS_UPDATE_CUMSUM as int] == 0);
            if r + 1 < h {
                assert forall|k: int| 0 <= k < 4 implies #[trigger] cumsum_rule(off, w, k) by {
                    assert(m.row(r)[cols::CUMSUM + k] == 0);
                    assert(m.row(r + 1)[cols::CUMSUM + k] == 0);
                    let cell = dot_cell(off, w.cur, k);
                    assert(0 - ((0 + 0) * cell + (1 - 0) * 0) == 0) by (nonlinear_arith);
                }
            }
        }
    }
}

/// The byte cells of two tiles hold rows of sixteen bytes each, and an inner
/// product of the cells is that of the bytes.
pub proof fn lemma_dot_of_bytes(
    off: MatmulOffsets,
    s: Seq<u64>,
    a: Seq<Seq<i8>>,
    b: Seq<Seq<i8>>,
    k: int,
)
    requires
        0 <= k < 4,
        tile_cells(s, off.a_unpack_start as int, a),
        tile_cells(s, off.b_unpack_start as int, b),
    ensures
        is_zero(dot_cell(off, s, k) - product_sum(a[k / 2], b[k % 2])),
{
    let at_a = off.a_unpack_start + (k / 2) * 16;
    let at_b = off.b_unpack_start + (k % 2) * 16;
    assert forall|d: int| 0 <= d < 16 implies s[at_a + d] == enc(#[trigger] a[k / 2][d] as int) by {
        assert(s[off.a_unpack_start + (k / 2) * 16 + d] == enc(a[k / 2][d] as int));
    }
    assert forall|d: int| 0 <= d < 16 implies s[at_b + d] == enc(#[trigger] b[k % 2][d] as int) by {
        assert(s[off.b_unpack_start + (k % 2) * 16 + d] == enc(b[k % 2][d] as int));
    }
    lemma_dot_cells(s, at_a, at_b, a[k / 2], b[k % 2], 16);
    lemma_inner_product_is_sum(a[k / 2], b[k % 2]);
}

/// Thirty-two cells hold two rows of sixteen bytes.
pub open spec fn tile_cells(s: Seq<u64>, at: int, tile: Seq<Seq<i8>>) -> bool {
    forall|i: int, d: int|
        0 <= i < 2 && 0 <= d < 16 ==> s[at + i * 16 + d] == enc(#[trigger] tile[i][d] as int)
}

/// What the rules ask of a row that holds two tiles of bytes, no more and no
/// less: the flags are boolean, and each accumulator cell of the row below is
/// the inner product of the cell's tile rows after a reset, the sum after an
/// update, the same after a row that is neither, and twice the inner product
/// after a row that is both.
pub proof fn accumulator_follows_tiles(
    off: MatmulOffsets,
    w: Window,
    a: Seq<Seq<i8>>,
    b: Seq<Seq<i8>>,
)
    requires
        w.canonical(),
        off.within(w.cur.len() as int),
        w.nxt.len() == w.cur.len(),
        tile_cells(w.cur, off.a_unpack_start as int, a),
        tile_cells(w.cur, off.b_unpack_start as int, b),
    ensures
        matmul_rules(off, w) <==> {
            let reset = w.cur[off.is_reset_col as int];
            let update = w.cur[off.is_update_col as int];
            &&& reset == 0 || reset == 1
            &&& update == 0 || update == 1
            &&& !w.last ==> forall|k: int|
                0 <= k < 4 ==> #[trigger] w.nxt[off.cumsum_start + k] == if reset == 0 && update
                    == 0 {
                    w.cur[off.cumsum_start + k] as int
                } else if reset == 0 {
                    enc(w.cur[off.cumsum_start + k] + product_sum(a[k / 2], b[k % 2]))
                } else if update == 0 {
                    enc(product_sum(a[k / 2], b[k % 2]))
                } else {
                    enc(2 * product_sum(a[k / 2], b[k % 2]))
                }
        },
{
    let s = w.cur;
    let reset = s[off.is_reset_col as int] as int;
    let update = s[off.is_update_col as int] as int;
    assert(is_bool(0) && is_bool(1)) by {
        assert(0 * (0 - 1) == 0);
        assert(1 * (1 - 1) == 0);
    }
    if is_bool(reset) {
        bool_check_is_boolean(reset);
    }
    if is_bool(update) {
        bool_check_is_boolean(update);
    }
    if (reset == 0 || reset == 1) && (update == 0 || update == 1) && !w.last {
        assert forall|k: int| 0 <= k < 4 implies (#[trigger] cumsum_rule(off, w, k) <==> w.nxt[
        off.cumsum_start + k] == if reset == 0 && update == 0 {
            w.cur[off.cumsum_start + k] as int
        } else if reset == 0 {
            enc(w.cur[off.cumsum_start + k] + product_sum(a[k / 2], b[k % 2]))
        } else if update == 0 {
            enc(product_sum(a[k / 2], b[k % 2]))
        } else {
            enc(2 * product_sum(a[k / 2], b[k % 2]))
        }) by {
            let prev = s[off.cumsum_start + k] as int;
            let next = w.nxt[off.cumsum_start + k] as int;
            let cell = dot_cell(off, s, k);
            let dot = product_sum(a[k / 2], b[k % 2]);
            lemma_dot_of_bytes(off, s, a, b, k);
            let rhs = (reset + update) * cell + (1 - reset) * prev;
            let want = (reset + update) * dot + (1 - reset) * prev;
            assert(rhs - want == (reset + update) * (cell - dot)) by (nonlinear_arith)
                requires
                    rhs == (reset + update) * cell + (1 - reset) * prev,
                    want == (reset + update) * dot + (1 - reset) * prev,
            ;
            lemma_zero_mul(cell - dot, reset + update);
            lemma_enc_feq(want);
            if is_zero(next - rhs) {
                lemma_zero_add(next - rhs, rhs - want);
                lemma_zero_add((next - rhs) + (rhs - want), want - enc(want));
                lemma_feq_canonical(next, enc(want));
            }
            if next == enc(want) {
                lemma_zero_add(enc(want) - want, rhs - want);
            }
            if reset == 0 && update == 0 {
                assert(want == prev) by (nonlinear_arith)
                    requires
                        want == (reset + update) * dot + (1 - reset) * prev,
                        reset == 0,
                        update == 0,
                ;
                lemma_enc_small(prev);
            } else if reset == 0 {
                assert(want == prev + dot) by (nonlinear_arith)
                    requires
                        want == (reset + update) * dot + (1 - reset) * prev,
                        reset == 0,
                        update == 1,
                ;
            } else if update == 0 {
                assert(want == dot) by (nonlinear_arith)
                    requires
                        want == (reset + update) * dot + (1 - reset) * prev,
                        reset == 1,
                        update == 0,
                ;
            } else {
                assert(want == 2 * dot) by (nonlinear_arith)
                    requires
                        want == (reset + update) * dot + (1 - reset) * prev,
                        reset == 1,
                        update == 1,
                ;
            }
        }
        if matmul_rules(off, w) {
            assert forall|k: int| 0 <= k < 4 implies #[trigger] w.nxt[off.cumsum_start + k]
                == if reset == 0 && update == 0 {
                w.cur[off.cumsum_start + k] as int
            } else if reset == 0 {
                enc(w.cur[off.cumsum_start + k] + product_sum(a[k / 2], b[k % 2]))
            } else if update == 0 {
                enc(product_sum(a[k / 2], b[k % 2]))
            } else {
                enc(2 * product_sum(a[k / 2], b[k % 2]))
            } by {
                assert(cumsum_rule(off, w, k));
            }
        }
    }
}

/// A trace is as long as its steps need, rounded up to a power of two of at
/// least four, and no longer.
pub proof fn built_trace_is_shortest(m: RowMajorMatrix, steps: Seq<Step>)
    requires
        trace_runs(m, steps),
    ensures
        m.spec_height() >= steps.len(),
        m.spec_height() >= 4,
        m.spec_height() == 4 || m.spec_height() < 2 * steps.len(),
        exists|k: nat| m.spec_height() == #[trigger] vstd::arithmetic::power2::pow2(k),
{
    padded_height_is_least_power_of_two(steps.len());
}

/// Each row of a built trace carries its step's tiles and flags and the
/// accumulator before the step, which starts at zero, forgets at a reset, adds
/// up at an update and stays otherwise.
pub proof fn built_rows_carry_steps(m: RowMajorMatrix, steps: Seq<Step>, r: int, k: int)
    requires
        trace_runs(m, steps),
        0 <= r < steps.len(),
        0 <= k < 4,
    ensures
        tile_cells(m.row(r), cols::A_UNPACK as int, seq![steps[r].a@[0]@, steps[r].a@[1]@]),
        tile_cells(m.row(r), cols::B_UNPACK as int, seq![steps[r].b@[0]@, steps[r].b@[1]@]),
        m.row(r)[cols::IS_RESET_CUMSUM as int] == if steps[r].is_reset {
            1int
        } else {
            0int
        },
        m.row(r)[cols::IS_UPDATE_CUMSUM as int] == if steps[r].is_update {
            1int
        } else {
            0int
        },
        r == 0 ==> m.row(r)[cols::CUMSUM + k] == 0,
        r > 0 && steps[r - 1].is_reset ==> m.row(r)[cols::CUMSUM + k] == enc(
            product_sum(steps[r - 1].a@[k / 2]@, steps[r - 1].b@[k % 2]@),
        ),
        r > 0 && !steps[r - 1].is_reset && !steps[r - 1].is_update ==> m.row(r)[cols::CUMSUM + k]
            == m.row(r - 1)[cols::CUMSUM + k],
        r > 0 && !steps[r - 1].is_reset && steps[r - 1].is_update ==> ({
            let before = decode_i32(m.row(r - 1)[cols::CUMSUM + k]);
            let total = before + product_sum(steps[r - 1].a@[k / 2]@, steps[r - 1].b@[k % 2]@);
            i32::MIN <= total <= i32::MAX ==> m.row(r)[cols::CUMSUM + k] == enc(total)
        }),
{
    let step = steps[r];
    let row = m.row(r);
    assert(row_matches(
        row,
        step.a@,
        step.b@,
        cumsum_before(steps, r),
        step.is_reset,
        step.is_update,
    ));
    lemma_tile_rows(row, cols::A_UNPACK as int, step.a@);
    lemma_tile_rows(row, cols::B_UNPACK as int, step.b@);
    assert(row[cols::CUMSUM + k] == enc(cumsum_before(steps, r)[k] as int));
    lemma_enc_small(0);
    if r > 0 {
        let prev = steps[r - 1];
        assert(row_matches(
            m.row(r - 1),
            prev.a@,
            prev.b@,
            cumsum_before(steps, r - 1),
            prev.is_reset,
            prev.is_update,
        ));
        let held = cumsum_before(steps, r - 1);
        assert(m.row(r - 1)[cols::CUMSUM + k] == enc(held[k] as int));
        decode_inverts_encode(held[k]);
        rows_reset_update_or_keep(prev.a@, prev.b@, held, held, k);
        lemma_inner_product_is_sum(prev.a@[k / 2]@, prev.b@[k % 2]@);
        lemma_inner_product_bound(prev.a@[k / 2]@, prev.b@[k % 2]@, 16);
    }
}

/// The rows of a tile in its cells.
proof fn lemma_tile_rows(s: Seq<u64>, at: int, tile: Seq<[i8; TILE_D]>)
    requires
        has_tile(s, at, tile),
    ensures
        tile_cells(s, at, seq![tile[0]@, tile[1]@]),
{
    let rows = seq![tile[0]@, tile[1]@];
    assert forall|i: int, d: int| 0 <= i < 2 && 0 <= d < 16 implies s[at + i * 16 + d] == enc(
        #[trigger] rows[i][d] as int,
    ) by {
        let j = at + i * 16 + d;
        assert((j - at) / 16 == i && (j - at) % 16 == d);
        assert(s[j] == enc(tile[(j - at) / 16]@[(j - at) % 16] as int));
    }
}

} // verus!
