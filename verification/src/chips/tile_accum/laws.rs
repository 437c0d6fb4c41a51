//! What the tile-accumulator constraints say of a trace.

use vstd::prelude::*;
use vstd::wrapping::i32_specs;

use crate::air::{is_bool, Window};
use crate::bits::xor_fold;
use crate::chips::parity::lemma_boolean_passes;
use crate::chips::selector::{
    hot_index, lemma_none_hot_sum, lemma_one_hot_sum, none_hot, one_hot,
    selector_follows_flag,
};
use crate::chips::tile_accum::{
    add_dot, cell_rule, cols, dots_schedule, held_after, lemma_held_len, lemma_held_step,
    lemma_rows_monotone, lemma_stripe_rows, lemma_stripes_step, row_matches, rows_before,
    sub_block, tile_accum_rules, trace_runs, TaRow, TileAccumOffsets, SB_CELLS,
};
use crate::chips::tile_reduce::laws::reduction_is_xor_of_cells;
use crate::chips::tile_reduce::x_step;
use crate::field::{
    decode_i32, decode_inverts_encode, enc, is_zero, lemma_enc_feq, lemma_enc_small,
    lemma_feq_canonical, lemma_zero_add, p,
};
use crate::matrix::{lemma_row_canonical, padded_height_is_least_power_of_two, RowMajorMatrix};
use crate::prime::bool_check_is_boolean;

verus! {

/// A row selects the sub-block of a cell.
pub open spec fn selects(off: TileAccumOffsets, row: Seq<u64>, c: int) -> bool {
    row[off.is_active as int] == 1 && hot_index(row, off.sb_sel as int, off.n_sb as int) == c / 4
}

/// One transition: the selected sub-block's cells take their inner products,
/// on top of what they held unless the row restarts them, and every other cell
/// passes unchanged.
pub proof fn transition_updates_selected_block(off: TileAccumOffsets, w: Window, c: int)
    requires
        w.canonical(),
        off.within(w.cur.len() as int),
        off.n_sb < p(),
        w.nxt.len() == w.cur.len(),
        tile_accum_rules(off, w),
        !w.last,
        0 <= c < off.n_sb * 4,
    ensures
        selects(off, w.cur, c) && w.cur[off.is_reset as int] == 1 ==> w.nxt[off.acc + c]
            == w.cur[off.dot + c % 4],
        selects(off, w.cur, c) && w.cur[off.is_reset as int] == 0 ==> w.nxt[off.acc + c] == enc(
            w.cur[off.acc + c] + w.cur[off.dot + c % 4],
        ),
        !selects(off, w.cur, c) ==> w.nxt[off.acc + c] == w.cur[off.acc + c],
        w.cur[off.is_reset as int] == 0 || w.cur[off.is_reset as int] == 1,
{
    let s = w.cur;
    let active = s[off.is_active as int] as int;
    let reset = s[off.is_reset as int] as int;
    bool_check_is_boolean(active);
    bool_check_is_boolean(reset);
    selector_follows_flag(s, active, off.sb_sel as int, off.n_sb as nat);
    assert(cell_rule(off, w, c));
    let sel = s[off.sb_sel + c / 4] as int;
    let a = s[off.acc + c] as int;
    let d = s[off.dot + c % 4] as int;
    let next = w.nxt[off.acc + c] as int;
    let keep = 1 - sel * reset;
    assert(0 <= c / 4 < off.n_sb);
    if selects(off, s, c) {
        assert(sel == 1);
        if reset == 1 {
            assert(a * keep + sel * d == d) by (nonlinear_arith)
                requires
                    keep == 1 - sel * reset,
                    sel == 1,
                    reset == 1,
            ;
            lemma_feq_canonical(next, d);
        } else {
            assert(a * keep + sel * d == a + d) by (nonlinear_arith)
                requires
                    keep == 1 - sel * reset,
                    sel == 1,
                    reset == 0,
            ;
            lemma_enc_feq(a + d);
            lemma_zero_add(next - (a + d), (a + d) - enc(a + d));
            lemma_feq_canonical(next, enc(a + d));
        }
    } else {
        assert(sel == 0);
        assert(a * keep + sel * d == a) by (nonlinear_arith)
            requires
                keep == 1 - sel * reset,
                sel == 0,
        ;
        lemma_feq_canonical(next, a);
    }
}

/// What the rows above a row add up to for a cell since its last restart, as
/// an integer.
pub open spec fn held_total(off: TileAccumOffsets, m: RowMajorMatrix, r: int, c: int) -> int
    decreases r,
{
    if r <= 0 {
        0
    } else {
        let row = m.row(r - 1);
        if !selects(off, row, c) {
            held_total(off, m, r - 1, c)
        } else if row[off.is_reset as int] == 1 {
            row[off.dot + c % 4] as int
        } else {
            held_total(off, m, r - 1, c) + row[off.dot + c % 4]
        }
    }
}

/// In any trace that meets the rules, every cell of the accumulator is the sum
/// of the inner products that the rows above gave it since its last restart.
pub proof fn accumulator_is_determined(off: TileAccumOffsets, m: RowMajorMatrix, r: int, c: int)
    requires
        m.wf(),
        off.within(m.width as int),
        off.n_sb < p(),
        m.satisfies(|w: Window| tile_accum_rules(off, w)),
        0 <= r < m.spec_height(),
        0 <= c < off.n_sb * 4,
    ensures
        m.row(r)[off.acc + c] == enc(held_total(off, m, r, c)),
    decreases r,
{
    let rule = |w: Window| tile_accum_rules(off, w);
    lemma_row_canonical(m, r);
    if r == 0 {
        let w = m.window(0, Seq::empty(), Seq::empty());
        assert(rule(w));
        assert(is_zero(w.cur[off.acc + c] as int));
        lemma_feq_canonical(w.cur[off.acc + c] as int, 0);
        lemma_enc_small(0);
    } else {
        accumulator_is_determined(off, m, r - 1, c);
        lemma_row_canonical(m, r - 1);
        let v = m.window(r - 1, Seq::empty(), Seq::empty());
        assert(rule(v));
        transition_updates_selected_block(off, v, c);
        let before = held_total(off, m, r - 1, c);
        let d = v.cur[off.dot + c % 4] as int;
        vstd::arithmetic::div_mod::lemma_add_mod_noop(before, d, p());
        vstd::arithmetic::div_mod::lemma_add_mod_noop(enc(before), d, p());
        vstd::arithmetic::div_mod::lemma_mod_twice(before, p());
        lemma_enc_small(d);
    }
}

/// The sub-blocks of a schedule exist, each update has four inner products,
/// and no sum leaves the range of a signed word.
pub open spec fn schedule_ok(sched: Seq<TaRow>, n: nat) -> bool {
    forall|r: int|
        0 <= r < sched.len() ==> (#[trigger] sched[r] matches TaRow::Active { sb, dot, reset } ==> {
            &&& 0 <= sb
            &&& sb * 4 + 4 <= n
            &&& dot.len() == 4
            &&& !reset ==> forall|i: int|
                0 <= i < 4 ==> i32::MIN <= held_after(sched.take(r), n)[sb * 4 + i]
                    + #[trigger] dot[i] <= i32::MAX
        })
}

/// Field elements of signed words add up as the words do.
proof fn lemma_enc_add(a: i32, d: i32, t: i32)
    requires
        t == a + d,
    ensures
        is_zero(enc(t as int) - (enc(a as int) + enc(d as int))),
{
    lemma_enc_feq(t as int);
    lemma_enc_feq(a as int);
    lemma_enc_feq(d as int);
    lemma_zero_add(enc(t as int) - t, enc(a as int) - a);
    lemma_zero_add((enc(t as int) - t) - (enc(a as int) - a), enc(d as int) - d);
}

/// The rule on one cell below a scheduled row.
proof fn lemma_cell_rule(
    w: Window,
    kind: TaRow,
    below: TaRow,
    acc: Seq<i32>,
    next: Seq<i32>,
    c: int,
)
    requires
        row_matches(w.cur, kind, acc),
        row_matches(w.nxt, below, next),
        acc.len() <= 256,
        0 <= c < 256,
        kind matches TaRow::Active { sb, dot, reset } ==> {
            &&& 0 <= sb
            &&& sb * 4 + 4 <= acc.len()
            &&& dot.len() == 4
            &&& !reset ==> forall|i: int|
                0 <= i < 4 ==> i32::MIN <= acc[sb * 4 + i] + #[trigger] dot[i] <= i32::MAX
        },
        next == match kind {
            TaRow::Idle => acc,
            TaRow::Active { sb, dot, reset } => add_dot(acc, sb, dot, reset),
        },
    ensures
        cell_rule(TileAccumOffsets::local(), w, c),
{
    let s = w.cur;
    let t = w.nxt;
    let sel = s[cols::SB_SEL + c / 4] as int;
    let reset = s[cols::IS_RESET as int] as int;
    let a = s[cols::ACC + c] as int;
    let d = s[cols::DOT + c % 4] as int;
    let b = t[cols::ACC + c] as int;
    let keep = 1 - sel * reset;
    assert(0 <= c / 4 < 64 && 0 <= c % 4 < 4);
    assert(a == if c < acc.len() {
        enc(acc[c] as int)
    } else {
        0
    });
    assert(b == if c < next.len() {
        enc(next[c] as int)
    } else {
        0
    });
    match kind {
        TaRow::Active { sb, dot, reset: restart } => {
            assert(d == enc(dot[c % 4] as int));
            if c / 4 == sb {
                assert(sel == 1);
                assert(c == sb * 4 + c % 4);
                if restart {
                    assert(b - (a * keep + sel * d) == 0) by (nonlinear_arith)
                        requires
                            keep == 1 - sel * reset,
                            sel == 1,
                            reset == 1,
                            b == d,
                    ;
                } else {
                    let i = c % 4;
                    assert(i32::MIN <= acc[sb * 4 + i] + dot[i] <= i32::MAX);
                    lemma_enc_add(acc[c], dot[i], next[c]);
                    assert(b - (a * keep + sel * d) == b - (a + d)) by (nonlinear_arith)
                        requires
                            keep == 1 - sel * reset,
                            sel == 1,
                            reset == 0,
                    ;
                }
            } else {
                assert(sel == 0);
                assert(b - (a * keep + sel * d) == 0) by (nonlinear_arith)
                    requires
                        keep == 1 - sel * reset,
                        sel == 0,
                        b == a,
                ;
            }
        },
        TaRow::Idle => {
            assert(sel == 0);
            assert(b - (a * keep + sel * d) == 0) by (nonlinear_arith)
                requires
                    keep == 1 - sel * reset,
                    sel == 0,
                    b == a,
            ;
        },
    }
}

/// A trace that runs a schedule whose sums stay in range meets the rules.
pub proof fn scheduled_trace_meets_rules(m: RowMajorMatrix, sched: Seq<TaRow>, n: nat)
    requires
        trace_runs(m, sched, n),
        n <= 256,
        schedule_ok(sched, n),
    ensures
        m.satisfies(|w: Window| tile_accum_rules(TileAccumOffsets::local(), w)),
{
    let off = TileAccumOffsets::local();
    let rule = |w: Window| tile_accum_rules(off, w);
    let h = m.spec_height() as int;
    padded_height_is_least_power_of_two(sched.len() + 1);
    assert(is_bool(0) && is_bool(1)) by {
        assert(0 * (0 - 1) == 0);
        assert(1 * (1 - 1) == 0);
    }
    assert forall|r: int| 0 <= r < m.spec_height() implies rule(
        #[trigger] m.window(r, Seq::empty(), Seq::empty()),
    ) by {
        let w = m.window(r, Seq::empty(), Seq::empty());
        let s = w.cur;
        let kind = if r < sched.len() {
            sched[r]
        } else {
            TaRow::Idle
        };
        let acc = if r < sched.len() {
            held_after(sched.take(r), n)
        } else {
            held_after(sched, n)
        };
        assert(row_matches(m.row(r), kind, acc));
        lemma_held_len(sched.take(r), n);
        lemma_held_len(sched, n);
        let reset = s[cols::IS_RESET as int] as int;
        let active = s[cols::IS_ACTIVE as int] as int;
        match kind {
            TaRow::Active { sb, dot, .. } => {
                lemma_one_hot_sum(s, cols::SB_SEL as int, 64, sb);
            },
            TaRow::Idle => {
                assert(none_hot(s, cols::SB_SEL as int, 64));
                lemma_none_hot_sum(s, cols::SB_SEL as int, 64);
            },
        }
        lemma_boolean_passes(0, s, cols::SB_SEL as int, 64);
        assert(reset * (1 - active) == 0) by (nonlinear_arith)
            requires
                reset == 0 || active == 1,
        ;
        if r == 0 {
            assert(sched.take(0) =~= Seq::empty());
            lemma_enc_small(0);
            assert forall|j: int| off.acc <= j < off.acc + off.n_sb * 4 implies is_zero(
                (#[trigger] s[j]) as int,
            ) by {
                if j - cols::ACC < acc.len() {
                    assert(acc[j - cols::ACC] == 0);
                }
            }
        }
        if r + 1 < h {
            let below = if r + 1 < sched.len() {
                sched[r + 1]
            } else {
                TaRow::Idle
            };
            let next = if r + 1 < sched.len() {
                held_after(sched.take(r + 1), n)
            } else {
                held_after(sched, n)
            };
            assert(row_matches(m.row(r + 1), below, next));
            if r < sched.len() {
                lemma_held_step(sched, n, r);
                if r + 1 == sched.len() {
                    assert(sched.take(r + 1) =~= sched);
                }
            }
            assert forall|c: int| 0 <= c < off.n_sb * 4 implies #[trigger] cell_rule(off, w, c) by {
                lemma_cell_rule(w, kind, below, acc, next, c);
            }
        }
    }
}

/// Within a stripe, a sub-block keeps its cells once it has been updated.
proof fn lemma_block_kept(dots: Seq<Seq<[i32; SB_CELLS]>>, n: nat, s: int, sb: int, k: int)
    requires
        0 <= s < dots.len(),
        0 <= sb < k <= dots[s].len(),
        sb * 4 + 4 <= n,
    ensures
        sub_block(held_after(dots_schedule(dots).take(rows_before(dots, s) + k), n), sb)
            == sub_block(
            held_after(dots_schedule(dots).take(rows_before(dots, s) + sb + 1), n),
            sb,
        ),
    decreases k,
{
    if sb + 1 < k {
        let sched = dots_schedule(dots);
        let r = rows_before(dots, s) + (k - 1);
        lemma_block_kept(dots, n, s, sb, k - 1);
        lemma_stripe_rows(dots, s);
        assert(sched[rows_before(dots, s) + (k - 1)] == (TaRow::Active {
            sb: k - 1,
            dot: dots[s][k - 1]@,
            reset: s == 0,
        }));
        lemma_held_step(sched, n, r);
        lemma_held_len(sched.take(r), n);
        lemma_held_len(sched.take(r + 1), n);
        assert(sub_block(held_after(sched.take(r + 1), n), sb) =~= sub_block(
            held_after(sched.take(r), n),
            sb,
        ));
    }
}

/// The sub-blocks of a whole stripe, each read right after its update, reduce
/// to the exclusive or of the accumulator that the stripe leaves behind.
pub proof fn stripe_reduces_to_accumulator_xor(
    dots: Seq<Seq<[i32; SB_CELLS]>>,
    s: int,
    cells: Seq<[i32; SB_CELLS]>,
)
    requires
        0 <= s < dots.len(),
        cells.len() == dots[s].len(),
        forall|sb: int|
            0 <= sb < cells.len() ==> (#[trigger] cells[sb])@ == sub_block(
                held_after(
                    dots_schedule(dots).take(rows_before(dots, s) + sb + 1),
                    dots[s].len() * 4,
                ),
                sb,
            ),
    ensures
        x_step(cells) == xor_fold(
            held_after(dots_schedule(dots).take(rows_before(dots, s + 1) as int), dots[s].len() * 4),
        ),
{
    let n = (dots[s].len() * 4) as nat;
    let k = dots[s].len() as int;
    lemma_stripe_rows(dots, s);
    let acc = held_after(dots_schedule(dots).take(rows_before(dots, s + 1) as int), n);
    lemma_held_len(dots_schedule(dots).take(rows_before(dots, s + 1) as int), n);
    assert forall|sb: int| 0 <= sb < cells.len() implies (#[trigger] cells[sb])@ == acc.subrange(
        sb * 4,
        sb * 4 + 4,
    ) by {
        lemma_block_kept(dots, n, s, sb, k);
        assert(sub_block(acc, sb) =~= acc.subrange(sb * 4, sb * 4 + 4));
    }
    reduction_is_xor_of_cells(cells, acc);
}

/// A trace whose flags, selector and accumulator are zero meets the rules.
pub proof fn zero_columns_meet_rules(off: TileAccumOffsets, w: Window)
    requires
        w.cur[off.is_active as int] == 0,
        w.cur[off.is_reset as int] == 0,
        none_hot(w.cur, off.sb_sel as int, off.n_sb as int),
        none_hot(w.cur, off.acc as int, off.n_sb * 4),
        none_hot(w.nxt, off.acc as int, off.n_sb * 4),
    ensures
        tile_accum_rules(off, w),
{
    let s = w.cur;
    assert(is_bool(0)) by {
        assert(0 * (0 - 1) == 0);
    }
    lemma_none_hot_sum(s, off.sb_sel as int, off.n_sb as nat);
    lemma_boolean_passes(0, s, off.sb_sel as int, off.n_sb as int);
    assert(0 * (1 - 0) == 0);
    assert forall|c: int| 0 <= c < off.n_sb * 4 implies #[trigger] cell_rule(off, w, c) by {
        assert(s[off.sb_sel + c / 4] == 0);
        assert(s[off.acc + c] == 0 && w.nxt[off.acc + c] == 0);
        let keep = 1 - s[off.sb_sel + c / 4] * s[off.is_reset as int];
        let d = s[off.dot + c % 4] as int;
        assert(0 * keep + 0 * d == 0);
    }
}

/// The last row of a scheduled trace carries the final accumulator: reading
/// its cells as signed words gives the accumulator back.
pub proof fn last_row_carries_accumulator(m: RowMajorMatrix, sched: Seq<TaRow>, n: nat, c: int)
    requires
        trace_runs(m, sched, n),
        n <= 256,
        0 <= c < n,
    ensures
        decode_i32(m.row(m.spec_height() - 1)[cols::ACC + c]) == held_after(sched, n)[c],
{
    padded_height_is_least_power_of_two(sched.len() + 1);
    lemma_held_len(sched, n);
    let last = m.row(m.spec_height() - 1);
    assert(row_matches(last, TaRow::Idle, held_after(sched, n)));
    assert(last[cols::ACC + c] == enc(held_after(sched, n)[c] as int));
    decode_inverts_encode(held_after(sched, n)[c]);
}

/// A row meets the rules exactly as the update asks: it selects one sub-block
/// where it is active and none otherwise, restarts only where it is active,
/// and the row below holds, in the selected sub-block, the inner products alone
/// or added on, and every other cell unchanged.
pub proof fn updating_window_meets_rules(off: TileAccumOffsets, w: Window, block: int)
    requires
        w.canonical(),
        off.within(w.cur.len() as int),
        w.nxt.len() == w.cur.len(),
        w.cur[off.is_active as int] == 0 && none_hot(w.cur, off.sb_sel as int, off.n_sb as int)
            && w.cur[off.is_reset as int] == 0 || w.cur[off.is_active as int] == 1 && 0 <= block
            < off.n_sb && one_hot(w.cur, off.sb_sel as int, off.n_sb as int, block) && (
        w.cur[off.is_reset as int] == 0 || w.cur[off.is_reset as int] == 1),
        w.first ==> none_hot(w.cur, off.acc as int, off.n_sb * 4),
        !w.last ==> forall|c: int|
            0 <= c < off.n_sb * 4 ==> #[trigger] w.nxt[off.acc + c] == if w.cur[
            off.is_active as int] == 1 && block * 4 <= c < block * 4 + 4 {
                if w.cur[off.is_reset as int] == 1 {
                    w.cur[off.dot + (c - block * 4)] as int
                } else {
                    enc(w.cur[off.acc + c] + w.cur[off.dot + (c - block * 4)])
                }
            } else {
                w.cur[off.acc + c] as int
            },
    ensures
        tile_accum_rules(off, w),
{
    let s = w.cur;
    let active = s[off.is_active as int] as int;
    let reset = s[off.is_reset as int] as int;
    assert(is_bool(0) && is_bool(1)) by {
        assert(0 * (0 - 1) == 0);
        assert(1 * (1 - 1) == 0);
    }
    if active == 1 {
        lemma_one_hot_sum(s, off.sb_sel as int, off.n_sb as nat, block);
    } else {
        lemma_none_hot_sum(s, off.sb_sel as int, off.n_sb as nat);
    }
    lemma_boolean_passes(0, s, off.sb_sel as int, off.n_sb as int);
    assert(reset * (1 - active) == 0) by (nonlinear_arith)
        requires
            reset == 0 || active == 1,
    ;
    if !w.last {
        assert forall|c: int| 0 <= c < off.n_sb * 4 implies #[trigger] cell_rule(off, w, c) by {
            let sel = s[off.sb_sel + c / 4] as int;
            let a = s[off.acc + c] as int;
            let d = s[off.dot + c % 4] as int;
            let next = w.nxt[off.acc + c] as int;
            let keep = 1 - sel * reset;
            assert(0 <= c / 4 < off.n_sb);
            let e = next - (a * keep + sel * d);
            if active == 1 && c / 4 == block {
                assert(c - block * 4 == c % 4);
                assert(sel == 1);
                if reset == 1 {
                    assert(e == 0) by (nonlinear_arith)
                        requires
                            e == next - (a * keep + sel * d),
                            keep == 1 - sel * reset,
                            sel == 1,
                            reset == 1,
                            next == d,
                    ;
                } else {
                    assert(e == enc(a + d) - (a + d)) by (nonlinear_arith)
                        requires
                            e == next - (a * keep + sel * d),
                            keep == 1 - sel * reset,
                            sel == 1,
                            reset == 0,
                            next == enc(a + d),
                    ;
                    lemma_enc_feq(a + d);
                }
            } else {
                assert(sel == 0);
                assert(e == 0) by (nonlinear_arith)
                    requires
                        e == next - (a * keep + sel * d),
                        keep == 1 - sel * reset,
                        sel == 0,
                        next == a,
                ;
            }
        }
    }
}

/// Only active rows restart a sub-block.
pub proof fn restart_needs_activity(off: TileAccumOffsets, w: Window)
    requires
        w.canonical(),
        off.within(w.cur.len() as int),
        tile_accum_rules(off, w),
        w.cur[off.is_reset as int] == 1,
    ensures
        w.cur[off.is_active as int] == 1,
{
    let active = w.cur[off.is_active as int] as int;
    bool_check_is_boolean(active);
    assert(1 * (1 - active) == 1 - active);
    if active == 0 {
        lemma_feq_canonical(1, 0);
    }
}

/// The sum of a sub-block's inner products over some stripes, as an integer.
pub open spec fn product_total(
    dots: Seq<Seq<[i32; SB_CELLS]>>,
    sb: int,
    i: int,
    s: nat,
) -> int {
    Seq::new(s, |k: int| dots[k][sb]@[i] as int).fold_left(0, |acc: int, x: int| acc + x)
}

/// One more stripe adds its inner product.
proof fn lemma_product_total(dots: Seq<Seq<[i32; SB_CELLS]>>, sb: int, i: int, s: nat)
    ensures
        product_total(dots, sb, i, s + 1) == product_total(dots, sb, i, s)
            + dots[s as int][sb]@[i],
        product_total(dots, sb, i, 0) == 0,
{
    let xs = Seq::new(s + 1, |k: int| dots[k][sb]@[i] as int);
    assert(xs.drop_last() =~= Seq::new(s, |k: int| dots[k][sb]@[i] as int));
}

/// After some rows of a stripe, a cell holds what the stripe found there, or
/// its update where its sub-block has had its turn.
proof fn lemma_stripe_cell(
    dots: Seq<Seq<[i32; SB_CELLS]>>,
    n: nat,
    s: int,
    k: int,
    sb: int,
    i: int,
)
    requires
        0 <= s < dots.len(),
        0 <= k <= dots[s].len(),
        0 <= sb < dots[s].len(),
        sb * 4 + 4 <= n,
        0 <= i < 4,
    ensures
        ({
            let before = held_after(dots_schedule(dots).take(rows_before(dots, s) as int), n);
            held_after(dots_schedule(dots).take(rows_before(dots, s) + k), n)[sb * 4 + i] == if sb
                < k {
                if s == 0 {
                    dots[s][sb]@[i]
                } else {
                    i32_specs::wrapping_add(before[sb * 4 + i], dots[s][sb]@[i])
                }
            } else {
                before[sb * 4 + i]
            }
        }),
    decreases k,
{
    if k > 0 {
        let sched = dots_schedule(dots);
        let r = rows_before(dots, s) + (k - 1);
        lemma_stripe_cell(dots, n, s, k - 1, sb, i);
        lemma_stripe_rows(dots, s);
        assert(sched[rows_before(dots, s) + (k - 1)] == (TaRow::Active {
            sb: k - 1,
            dot: dots[s][k - 1]@,
            reset: s == 0,
        }));
        lemma_held_step(sched, n, r);
        lemma_held_len(sched.take(r), n);
        assert((sb * 4 + i) / 4 == sb && (sb * 4 + i) % 4 == i);
    }
}

/// After whole stripes, every cell holds the sum of its inner products over
/// all of them, wrapped to a signed word: stripes add up, and only the first
/// one starts afresh.
pub proof fn accumulator_sums_stripes(
    dots: Seq<Seq<[i32; SB_CELLS]>>,
    n_sb: nat,
    s: nat,
    sb: int,
    i: int,
)
    requires
        s <= dots.len(),
        forall|k: int| 0 <= k < dots.len() ==> (#[trigger] dots[k]).len() == n_sb,
        0 <= sb < n_sb,
        0 <= i < 4,
    ensures
        (held_after(dots_schedule(dots.take(s as int)), n_sb * 4)[sb * 4 + i] - product_total(
            dots,
            sb,
            i,
            s,
        )) % 0x1_0000_0000 == 0,
    decreases s,
{
    let n = (n_sb * 4) as nat;
    lemma_product_total(dots, sb, i, s);
    if s == 0 {
        assert(dots.take(0) =~= Seq::empty());
    } else {
        let t = (s - 1) as nat;
        accumulator_sums_stripes(dots, n_sb, t, sb, i);
        lemma_product_total(dots, sb, i, t);
        assert(dots[t as int].len() == n_sb);
        lemma_stripe_cell(dots, n, t as int, n_sb as int, sb, i);
        lemma_stripes_step(dots, t as int);
        lemma_rows_monotone(dots, t as int, dots.len() as int);
        lemma_rows_monotone(dots, s as int, dots.len() as int);
        assert(dots.take(dots.len() as int) =~= dots);
        let before = held_after(dots_schedule(dots.take(t as int)), n)[sb * 4 + i];
        let dot = dots[t as int][sb]@[i];
        if t == 0 {
            assert(dots.take(0) =~= Seq::empty());
        }
    }
}

/// Right after its update in a stripe, a sub-block's four cells are, in their
/// order, the sums of its inner products over the stripes so far, wrapped to
/// signed words.
pub proof fn updated_cells_are_running_sums(
    dots: Seq<Seq<[i32; SB_CELLS]>>,
    n_sb: nat,
    s: int,
    sb: int,
    i: int,
)
    requires
        0 <= s < dots.len(),
        forall|k: int| 0 <= k < dots.len() ==> (#[trigger] dots[k]).len() == n_sb,
        0 <= sb < n_sb,
        0 <= i < 4,
    ensures
        (sub_block(
            held_after(dots_schedule(dots).take(rows_before(dots, s) + sb + 1), n_sb * 4),
            sb,
        )[i] - product_total(dots, sb, i, (s + 1) as nat)) % 0x1_0000_0000 == 0,
{
    let n = (n_sb * 4) as nat;
    assert(dots[s].len() == n_sb);
    lemma_block_kept(dots, n, s, sb, n_sb as int);
    accumulator_sums_stripes(dots, n_sb, (s + 1) as nat, sb, i);
    lemma_stripes_step(dots, s);
    lemma_rows_monotone(dots, s + 1, dots.len() as int);
    assert(dots.take(dots.len() as int) =~= dots);
    let whole = held_after(dots_schedule(dots.take(s + 1)), n);
    assert(sub_block(whole, sb)[i] == whole[sb * 4 + i]);
}

/// A trace is as long as its schedule needs with one row to spare, rounded up
/// to a power of two, and no longer.
pub proof fn built_trace_is_shortest(m: RowMajorMatrix, sched: Seq<TaRow>, n: nat)
    requires
        trace_runs(m, sched, n),
    ensures
        m.spec_height() > sched.len(),
        m.spec_height() == 4 || m.spec_height() < 2 * (sched.len() + 1),
        exists|k: nat| m.spec_height() == #[trigger] vstd::arithmetic::power2::pow2(k),
{
    padded_height_is_least_power_of_two(sched.len() + 1);
}

} // verus!
