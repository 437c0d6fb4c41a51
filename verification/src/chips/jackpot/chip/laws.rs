//! What the jackpot constraints say of a trace.

use vstd::prelude::*;

use crate::air::{dot_cells, is_bool, polyval, Window};
use crate::bits::{
    bit, has_bits, lemma_bit_bound, lemma_bits_boolean, lemma_bits_value, lemma_cells_word,
    lemma_rotl13_bit, lemma_xor_bit, lemma_zero_bit, rotl13, word_at,
};
use crate::chips::jackpot::chip::{
    cols, jackpot_rules, rotated_xor, row_matches, slot_rule, state_before, trace_runs, xor_cell,
    JackpotOffsets, Step,
};
use crate::chips::jackpot::compute::jackpot_step;
use crate::chips::parity::lemma_boolean_passes;
use crate::chips::selector::{
    hot_index, lemma_checked_boolean, lemma_none_hot_sum, lemma_one_hot_dot, lemma_one_hot_sum,
    none_hot, one_hot, selector_follows_flag,
};
use crate::field::{is_zero, lemma_feq_canonical};
use crate::matrix::{padded_height_is_least_power_of_two, RowMajorMatrix};
use crate::prime::bool_check_is_boolean;

verus! {

/// Over bit cells the polynomial is the rotated word folded with the other.
proof fn lemma_rotated_xor(off: JackpotOffsets, s: Seq<u64>, v: u32, x: u32, n: nat)
    requires
        n <= 32,
        has_bits(s, off.v_bits_start as int, v),
        has_bits(s, off.x_bits_start as int, x),
    ensures
        rotated_xor(off, s, n) == polyval(
            Seq::new(32, |i: int| bit(rotl13(v) ^ x, i) as u64),
            0,
            n,
            2,
        ),
    decreases n,
{
    if n > 0 {
        let t = Seq::new(32, |i: int| bit(rotl13(v) ^ x, i) as u64);
        lemma_rotated_xor(off, s, v, x, (n - 1) as nat);
        let i = n - 1;
        let k = (i + 19) % 32;
        assert(s[off.v_bits_start + k] == bit(v, k));
        assert(s[off.x_bits_start + i] == bit(x, i));
        lemma_rotl13_bit(v, i);
        lemma_xor_bit(rotl13(v), x, i);
        lemma_bit_bound(v, k);
        lemma_bit_bound(x, i);
        lemma_bit_bound(rotl13(v) ^ x, i);
        let a = bit(v, k);
        let b = bit(x, i);
        assert(a + b - b * a * 2 == (a + b) % 2) by (nonlinear_arith)
            requires
                a == 0 || a == 1,
                b == 0 || b == 1,
        ;
        assert(xor_cell(off, s, i) == t[i]);
    }
}

/// Over bit cells the whole polynomial is the updated slot.
proof fn lemma_rotated_word(off: JackpotOffsets, s: Seq<u64>, v: u32, x: u32)
    requires
        has_bits(s, off.v_bits_start as int, v),
        has_bits(s, off.x_bits_start as int, x),
    ensures
        rotated_xor(off, s, 32) == rotl13(v) ^ x,
{
    let z = rotl13(v) ^ x;
    let t = Seq::new(32, |i: int| bit(z, i) as u64);
    lemma_rotated_xor(off, s, v, x, 32);
    assert forall|j: int| 0 <= j < 0 + 32 implies (#[trigger] t[j]) == bit(z, j - 0) by {
        lemma_bit_bound(z, j);
    }
    lemma_bits_value(t, 0, z);
}

/// One transition from an active row: the selected slot is a word, which is
/// rotated by thirteen and folded with the row's word; every other slot passes
/// unchanged.
pub proof fn active_transition_updates_slot(off: JackpotOffsets, w: Window)
    requires
        w.canonical(),
        off.within(w.cur.len() as int),
        w.nxt.len() == w.cur.len(),
        jackpot_rules(off, w),
        !w.last,
        w.cur[off.is_active_col as int] == 1,
    ensures
        ({
            let slot = hot_index(w.cur, off.slot_sel_start as int, 16);
            let old = w.cur[off.jackpot_msg_start + slot];
            &&& 0 <= slot < 16
            &&& one_hot(w.cur, off.slot_sel_start as int, 16, slot)
            &&& old <= u32::MAX
            &&& w.nxt[off.jackpot_msg_start + slot] == rotl13(old as u32) ^ word_at(
                w.cur,
                off.x_bits_start as int,
            )
            &&& forall|i: int|
                0 <= i < 16 && i != slot ==> #[trigger] w.nxt[off.jackpot_msg_start + i]
                    == w.cur[off.jackpot_msg_start + i]
        }),
{
    let s = w.cur;
    selector_follows_flag(s, 1, off.slot_sel_start as int, 16);
    let slot = hot_index(s, off.slot_sel_start as int, 16);
    lemma_one_hot_dot(s, off.slot_sel_start as int, s, off.jackpot_msg_start as int, 16, slot);
    lemma_checked_boolean(s, off.v_bits_start as int, 32);
    lemma_checked_boolean(s, off.x_bits_start as int, 32);
    lemma_cells_word(s, off.v_bits_start as int);
    lemma_cells_word(s, off.x_bits_start as int);
    let v = word_at(s, off.v_bits_start as int);
    let x = word_at(s, off.x_bits_start as int);
    let old = s[off.jackpot_msg_start + slot] as int;
    assert(is_zero(1 * (old - v)));
    lemma_feq_canonical(old, v as int);
    lemma_rotated_word(off, s, v, x);
    let z = (rotl13(v) ^ x) as int;
    assert forall|i: int| 0 <= i < 16 implies #[trigger] w.nxt[off.jackpot_msg_start + i] == if i == slot {
        z
    } else {
        s[off.jackpot_msg_start + i] as int
    } by {
        assert(slot_rule(off, w, i));
        let sel = s[off.slot_sel_start + i] as int;
        let keep = s[off.jackpot_msg_start + i] as int;
        let next = w.nxt[off.jackpot_msg_start + i] as int;
        if i == slot {
            assert(1 * (next - (sel * z + (1 - sel) * keep)) == next - z) by (nonlinear_arith)
                requires
                    sel == 1,
            ;
            lemma_feq_canonical(next, z);
        } else {
            assert(1 * (next - (sel * z + (1 - sel) * keep)) == next - keep) by (nonlinear_arith)
                requires
                    sel == 0,
            ;
            lemma_feq_canonical(next, keep);
        }
    }
    assert forall|i: int| 0 <= i < 16 && i != slot implies #[trigger] w.nxt[off.jackpot_msg_start
        + i] == s[off.jackpot_msg_start + i] by {}
}

/// Every row is active or not, and one that is not selects no slot.
pub proof fn inactive_row_selects_nothing(off: JackpotOffsets, w: Window)
    requires
        w.canonical(),
        off.within(w.cur.len() as int),
        jackpot_rules(off, w),
    ensures
        w.cur[off.is_active_col as int] == 0 || w.cur[off.is_active_col as int] == 1,
        w.cur[off.is_active_col as int] == 0 ==> none_hot(w.cur, off.slot_sel_start as int, 16),
{
    let active = w.cur[off.is_active_col as int] as int;
    bool_check_is_boolean(active);
    selector_follows_flag(w.cur, active, off.slot_sel_start as int, 16);
}

/// Below an inactive row any state may start.
pub proof fn inactive_row_leaves_state_free(off: JackpotOffsets, w: Window, other: Window)
    requires
        jackpot_rules(off, w),
        w.cur[off.is_active_col as int] == 0,
        other.cur == w.cur,
    ensures
        jackpot_rules(off, other),
{
    assert forall|i: int| 0 <= i < 16 implies #[trigger] slot_rule(off, other, i) by {
        let sel = w.cur[off.slot_sel_start + i];
        let old = w.cur[off.jackpot_msg_start + i];
        let d = other.nxt[off.jackpot_msg_start + i] - (sel * rotated_xor(off, w.cur, 32) + (1
            - sel) * old);
        assert(0 * d == 0);
    }
}

/// The rules that one row's cells meet by themselves.
proof fn lemma_row_rules(w: Window, state: Seq<u32>, slot: int, x: u32, active: bool)
    requires
        row_matches(w.cur, state, slot, x, active),
        state.len() == 16,
        active ==> 0 <= slot < 16,
        !w.last ==> forall|i: int|
            0 <= i < 16 ==> #[trigger] slot_rule(JackpotOffsets::local(), w, i),
    ensures
        jackpot_rules(JackpotOffsets::local(), w),
{
    let s = w.cur;
    assert(is_bool(0) && is_bool(1)) by {
        assert(0 * (0 - 1) == 0);
        assert(1 * (1 - 1) == 0);
    }
    let v = if active {
        state[slot]
    } else {
        0
    };
    let xx = if active {
        x
    } else {
        0
    };
    lemma_bits_boolean(s, cols::V_BITS as int, v);
    lemma_bits_boolean(s, cols::X_BITS as int, xx);
    lemma_boolean_passes(0, s, cols::V_BITS as int, 32);
    lemma_boolean_passes(0, s, cols::X_BITS as int, 32);
    lemma_bits_value(s, cols::V_BITS as int, v);
    if active {
        assert(one_hot(s, cols::SLOT_SEL as int, 16, slot));
        lemma_one_hot_sum(s, cols::SLOT_SEL as int, 16, slot);
        lemma_one_hot_dot(s, cols::SLOT_SEL as int, s, cols::JACKPOT_MSG as int, 16, slot);
        assert(s[cols::JACKPOT_MSG + slot] == state[slot]);
    } else {
        assert(none_hot(s, cols::SLOT_SEL as int, 16));
        lemma_none_hot_sum(s, cols::SLOT_SEL as int, 16);
        let d = dot_cells(s, cols::SLOT_SEL as int, s, cols::JACKPOT_MSG as int, 16) - polyval(
            s,
            cols::V_BITS as int,
            32,
            2,
        );
        assert(0 * d == 0);
    }
    lemma_boolean_passes(0, s, cols::SLOT_SEL as int, 16);
}

/// The slots below a scheduled row.
proof fn lemma_slot_rules(
    w: Window,
    state: Seq<u32>,
    slot: int,
    x: u32,
    active: bool,
    next: Seq<u32>,
)
    requires
        row_matches(w.cur, state, slot, x, active),
        state.len() == 16,
        active ==> 0 <= slot < 16,
        active ==> next == jackpot_step(state, slot, x, true),
        active ==> forall|i: int|
            0 <= i < 16 ==> w.nxt[cols::JACKPOT_MSG + i] == #[trigger] next[i],
    ensures
        forall|i: int| 0 <= i < 16 ==> #[trigger] slot_rule(JackpotOffsets::local(), w, i),
{
    let off = JackpotOffsets::local();
    let s = w.cur;
    assert forall|i: int| 0 <= i < 16 implies #[trigger] slot_rule(off, w, i) by {
        let sel = s[cols::SLOT_SEL + i] as int;
        let old = s[cols::JACKPOT_MSG + i] as int;
        let below = w.nxt[cols::JACKPOT_MSG + i] as int;
        let z = rotated_xor(off, s, 32);
        let d = below - (sel * z + (1 - sel) * old);
        assert(old == state[i]);
        if active {
            assert(below == next[i]);
            lemma_rotated_word(off, s, state[slot], x);
            if i == slot {
                assert(d == 0) by (nonlinear_arith)
                    requires
                        d == below - (sel * z + (1 - sel) * old),
                        sel == 1,
                        below == z,
                ;
            } else {
                assert(d == 0) by (nonlinear_arith)
                    requires
                        d == below - (sel * z + (1 - sel) * old),
                        sel == 0,
                        below == old,
                ;
            }
            assert(1 * d == 0);
        } else {
            assert(0 * d == 0);
        }
    }
}

/// The state keeps its sixteen slots.
proof fn lemma_state_len(initial: Seq<u32>, steps: Seq<Step>, r: int)
    requires
        initial.len() == 16,
        0 <= r <= steps.len(),
        forall|i: int|
            0 <= i < steps.len() ==> ((#[trigger] steps[i]).is_active ==> steps[i].selected_slot
                < 16),
    ensures
        state_before(initial, steps, r).len() == 16,
    decreases r,
{
    if r > 0 {
        lemma_state_len(initial, steps, r - 1);
        assert(steps[r - 1].is_active ==> steps[r - 1].selected_slot < 16);
    }
}

/// A trace of steps meets the rules where no active step stands directly
/// before padding: its steps fill the trace, or the last one is inactive.
pub proof fn built_trace_meets_rules(m: RowMajorMatrix, initial: Seq<u32>, steps: Seq<Step>)
    requires
        initial.len() == 16,
        forall|i: int|
            0 <= i < steps.len() ==> ((#[trigger] steps[i]).is_active ==> steps[i].selected_slot
                < 16),
        trace_runs(m, initial, steps),
        steps.len() == m.spec_height() || steps.len() == 0 || !steps.last().is_active,
    ensures
        m.satisfies(|w: Window| jackpot_rules(JackpotOffsets::local(), w)),
{
    let off = JackpotOffsets::local();
    let rule = |w: Window| jackpot_rules(off, w);
    let h = m.spec_height() as int;
    padded_height_is_least_power_of_two(steps.len());
    assert forall|r: int| 0 <= r < m.spec_height() implies rule(
        #[trigger] m.window(r, Seq::empty(), Seq::empty()),
    ) by {
        let w = m.window(r, Seq::empty(), Seq::empty());
        if r < steps.len() {
            let step = steps[r];
            let state = state_before(initial, steps, r);
            let slot = step.selected_slot as int;
            assert(row_matches(m.row(r), state, slot, step.x, step.is_active));
            lemma_state_len(initial, steps, r);
            let next = state_before(initial, steps, r + 1);
            if r + 1 < h {
                if r + 1 < steps.len() {
                    let below = steps[r + 1];
                    assert(row_matches(
                        m.row(r + 1),
                        next,
                        below.selected_slot as int,
                        below.x,
                        below.is_active,
                    ));
                } else {
                    assert(steps[r] == steps.last());
                }
                lemma_slot_rules(w, state, slot, step.x, step.is_active, next);
            }
            lemma_row_rules(w, state, slot, step.x, step.is_active);
        } else {
            let zeros = Seq::new(16, |i: int| 0u32);
            assert forall|c: int| 0 <= c < cols::ROW_W implies #[trigger] w.cur[c] == 0 by {
                assert(m.row(r)[c] == 0);
            }
            assert(has_bits(w.cur, cols::V_BITS as int, 0)) by {
                assert forall|j: int|
                    cols::V_BITS <= j < cols::V_BITS + 32 implies (#[trigger] w.cur[j]) == bit(
                    0,
                    j - cols::V_BITS,
                ) by {
                    lemma_zero_bit(j - cols::V_BITS);
                }
            }
            assert(has_bits(w.cur, cols::X_BITS as int, 0)) by {
                assert forall|j: int|
                    cols::X_BITS <= j < cols::X_BITS + 32 implies (#[trigger] w.cur[j]) == bit(
                    0,
                    j - cols::X_BITS,
                ) by {
                    lemma_zero_bit(j - cols::X_BITS);
                }
            }
            assert(m.row(r).len() == cols::ROW_W) by {
                crate::matrix::lemma_row_canonical(m, r);
            }
            assert(row_matches(w.cur, zeros, 0, 0, false));
            lemma_slot_rules(w, zeros, 0, 0, false, zeros);
            lemma_row_rules(w, zeros, 0, 0, false);
        }
    }
}

/// A row meets the rules wherever its columns stand, if it does what the chip
/// is for. An inactive row selects no slot, and neither its state nor the row
/// below is tied to anything. An active row selects one slot, spells out that
/// slot's word and the word to fold in, and the row below holds the slot
/// rotated left by thirteen and folded, all other slots unchanged.
pub proof fn updating_window_meets_rules(
    off: JackpotOffsets,
    w: Window,
    slot: int,
    v: u32,
    x: u32,
)
    requires
        has_bits(w.cur, off.v_bits_start as int, v),
        has_bits(w.cur, off.x_bits_start as int, x),
        w.cur[off.is_active_col as int] == 0 && none_hot(w.cur, off.slot_sel_start as int, 16)
            || w.cur[off.is_active_col as int] == 1 && 0 <= slot < 16 && one_hot(
            w.cur,
            off.slot_sel_start as int,
            16,
            slot,
        ) && w.cur[off.jackpot_msg_start + slot] == v,
        !w.last && w.cur[off.is_active_col as int] == 1 ==> forall|i: int|
            0 <= i < 16 ==> #[trigger] w.nxt[off.jackpot_msg_start + i] == if i == slot {
                (((v << 13) | (v >> 19)) ^ x) as u64
            } else {
                w.cur[off.jackpot_msg_start + i]
            },
    ensures
        jackpot_rules(off, w),
{
    let s = w.cur;
    let active = s[off.is_active_col as int] as int;
    assert(is_bool(0) && is_bool(1)) by {
        assert(0 * (0 - 1) == 0);
        assert(1 * (1 - 1) == 0);
    }
    lemma_bits_boolean(s, off.v_bits_start as int, v);
    lemma_bits_boolean(s, off.x_bits_start as int, x);
    lemma_boolean_passes(0, s, off.v_bits_start as int, 32);
    lemma_boolean_passes(0, s, off.x_bits_start as int, 32);
    lemma_bits_value(s, off.v_bits_start as int, v);
    lemma_rotated_word(off, s, v, x);
    let picked = dot_cells(s, off.slot_sel_start as int, s, off.jackpot_msg_start as int, 16)
        - polyval(s, off.v_bits_start as int, 32, 2);
    if active == 1 {
        lemma_one_hot_sum(s, off.slot_sel_start as int, 16, slot);
        lemma_one_hot_dot(
            s,
            off.slot_sel_start as int,
            s,
            off.jackpot_msg_start as int,
            16,
            slot,
        );
    } else {
        lemma_none_hot_sum(s, off.slot_sel_start as int, 16);
        assert(0 * picked == 0);
    }
    lemma_boolean_passes(0, s, off.slot_sel_start as int, 16);
    if !w.last {
        assert forall|i: int| 0 <= i < 16 implies #[trigger] slot_rule(off, w, i) by {
            let sel = s[off.slot_sel_start + i] as int;
            let prev = s[off.jackpot_msg_start + i] as int;
            let below = w.nxt[off.jackpot_msg_start + i] as int;
            let z = rotated_xor(off, s, 32);
            let d = below - (sel * z + (1 - sel) * prev);
            if active == 1 {
                if i == slot {
                    assert(sel == 1);
                    assert(d == 0) by (nonlinear_arith)
                        requires
                            d == below - (sel * z + (1 - sel) * prev),
                            sel == 1,
                            below == z,
                    ;
                } else {
                    assert(sel == 0);
                    assert(d == 0) by (nonlinear_arith)
                        requires
                            d == below - (sel * z + (1 - sel) * prev),
                            sel == 0,
                            below == prev,
                    ;
                }
                assert(1 * d == 0);
            } else {
                assert(0 * d == 0);
            }
        }
    }
}

/// An active row spells out the word of the slot it selects, and the words it
/// works on are boolean, whether it is active or not.
pub proof fn active_row_spells_slot(off: JackpotOffsets, w: Window)
    requires
        w.canonical(),
        off.within(w.cur.len() as int),
        jackpot_rules(off, w),
    ensures
        has_bits(w.cur, off.v_bits_start as int, word_at(w.cur, off.v_bits_start as int)),
        has_bits(w.cur, off.x_bits_start as int, word_at(w.cur, off.x_bits_start as int)),
        w.cur[off.is_active_col as int] == 1 ==> w.cur[off.jackpot_msg_start + hot_index(
            w.cur,
            off.slot_sel_start as int,
            16,
        )] == word_at(w.cur, off.v_bits_start as int),
{
    let s = w.cur;
    lemma_checked_boolean(s, off.v_bits_start as int, 32);
    lemma_checked_boolean(s, off.x_bits_start as int, 32);
    lemma_cells_word(s, off.v_bits_start as int);
    lemma_cells_word(s, off.x_bits_start as int);
    let active = s[off.is_active_col as int] as int;
    bool_check_is_boolean(active);
    selector_follows_flag(s, active, off.slot_sel_start as int, 16);
    if active == 1 {
        let slot = hot_index(s, off.slot_sel_start as int, 16);
        lemma_one_hot_dot(
            s,
            off.slot_sel_start as int,
            s,
            off.jackpot_msg_start as int,
            16,
            slot,
        );
        let a = s[off.jackpot_msg_start + slot] as int;
        let b = polyval(s, off.v_bits_start as int, 32, 2);
        assert(1 * (a - b) == a - b);
        lemma_feq_canonical(a, b);
    }
}

/// A trace is as long as its steps need, rounded up to a power of two of at
/// least four, and no longer.
pub proof fn built_trace_is_shortest(m: RowMajorMatrix, initial: Seq<u32>, steps: Seq<Step>)
    requires
        trace_runs(m, initial, steps),
    ensures
        m.spec_height() >= steps.len(),
        m.spec_height() >= 4,
        m.spec_height() == 4 || m.spec_height() < 2 * steps.len(),
        exists|k: nat| m.spec_height() == #[trigger] vstd::arithmetic::power2::pow2(k),
{
    padded_height_is_least_power_of_two(steps.len());
}

/// Each row of a built trace carries the state that the steps before it leave:
/// the first row the initial state, and each further one its predecessor's
/// state with the step's slot rotated and folded where the step is active, and
/// nothing changed where it is not.
pub proof fn built_rows_carry_state(
    m: RowMajorMatrix,
    initial: Seq<u32>,
    steps: Seq<Step>,
    r: int,
    i: int,
)
    requires
        initial.len() == 16,
        forall|j: int|
            0 <= j < steps.len() ==> ((#[trigger] steps[j]).is_active ==> steps[j].selected_slot
                < 16),
        trace_runs(m, initial, steps),
        0 <= r < steps.len(),
        0 <= i < 16,
    ensures
        r == 0 ==> m.row(r)[cols::JACKPOT_MSG + i] == initial[i],
        r > 0 ==> ({
            let above = m.row(r - 1)[cols::JACKPOT_MSG + i];
            let v = above as u32;
            let step = steps[r - 1];
            m.row(r)[cols::JACKPOT_MSG + i] == if step.is_active && step.selected_slot == i {
                (((v << 13) | (v >> 19)) ^ step.x) as u64
            } else {
                above
            }
        }),
{
    lemma_state_len(initial, steps, r);
    assert(row_matches(
        m.row(r),
        state_before(initial, steps, r),
        steps[r].selected_slot as int,
        steps[r].x,
        steps[r].is_active,
    ));
    assert(m.row(r)[cols::JACKPOT_MSG + i] == state_before(initial, steps, r)[i]);
    if r > 0 {
        lemma_state_len(initial, steps, r - 1);
        assert(row_matches(
            m.row(r - 1),
            state_before(initial, steps, r - 1),
            steps[r - 1].selected_slot as int,
            steps[r - 1].x,
            steps[r - 1].is_active,
        ));
        assert(m.row(r - 1)[cols::JACKPOT_MSG + i] == state_before(initial, steps, r - 1)[i]);
    }
}

} // verus!
