//! What the x-step constraints say of a trace.

use vstd::prelude::*;

use crate::air::{is_bool, polyval, Window};
use crate::bits::{
    bit, bit_count, boolean_cells, has_bits, lemma_bit_bound, lemma_bits_boolean,
    lemma_bits_determine, lemma_bits_value, lemma_cells_prefix, lemma_cells_word, lemma_low_bits,
    lemma_word_signed, lemma_xor_algebra, lemma_xor_fold_parity, word_at, xor_fold,
};
use crate::chips::parity::lemma_boolean_passes;
use crate::chips::selector::lemma_checked_boolean;
use crate::chips::xstep::{
    active_xsteps, cell_rule, cols, column_rule, column_sum, padded_acc, quotient, row_matches,
    trace_runs, xstep_rules, XStepOffsets,
};
use crate::field::{canonical, lemma_feq_canonical, lemma_zero_small};
use crate::matrix::{lemma_row_canonical, padded_height_is_least_power_of_two, RowMajorMatrix};

verus! {

/// The accumulator cells of a row, as signed words.
pub open spec fn acc_words(off: XStepOffsets, s: Seq<u64>) -> Seq<i32> {
    Seq::new(64, |c: int| (s[off.acc + c] as u32) as i32)
}

/// The column sum of cells that hold the bits of some words.
proof fn lemma_column_sum(s: Seq<u64>, at: int, acc: Seq<i32>, i: int, n: nat)
    requires
        n <= 64,
        acc.len() == 64,
        0 <= i < 32,
        forall|c: int| 0 <= c < 64 ==> has_bits(s, at + c * 32, (#[trigger] acc[c]) as u32),
    ensures
        column_sum(s, at, i, n) == bit_count(acc.take(n as int), i),
    decreases n,
{
    if n > 0 {
        lemma_column_sum(s, at, acc, i, (n - 1) as nat);
        assert(acc.take(n as int).drop_last() =~= acc.take(n - 1));
        let c = n - 1;
        assert(has_bits(s, at + c * 32, acc[c] as u32));
        assert(s[at + c * 32 + i] == bit(acc[c] as u32, i));
    } else {
        assert(acc.take(0) =~= Seq::empty());
    }
}

/// The bits and the value of one accumulator cell.
proof fn lemma_cell_sound(off: XStepOffsets, s: Seq<u64>, c: int)
    requires
        canonical(s),
        off.within(s.len() as int),
        0 <= c < 64,
        cell_rule(off, s, c),
    ensures
        s[off.acc + c] <= u32::MAX,
        has_bits(s, off.acc_bits + c * 32, acc_words(off, s)[c] as u32),
{
    let at = off.acc_bits + c * 32;
    lemma_checked_boolean(s, at, 32);
    lemma_cells_word(s, at);
    lemma_feq_canonical(s[off.acc + c] as int, word_at(s, at) as int);
    lemma_word_signed(word_at(s, at));
}

/// On a row that meets the rules the accumulator cells are 32-bit words and
/// the scalar is their exclusive or.
pub proof fn row_reduces_accumulator(off: XStepOffsets, w: Window)
    requires
        w.canonical(),
        off.within(w.cur.len() as int),
        xstep_rules(off, w),
    ensures
        forall|c: int| 0 <= c < 64 ==> #[trigger] w.cur[off.acc + c] <= u32::MAX,
        w.cur[off.xstep as int] == xor_fold(acc_words(off, w.cur)),
{
    let s = w.cur;
    let acc = acc_words(off, s);
    assert forall|c: int| 0 <= c < 64 implies #[trigger] s[off.acc + c] <= u32::MAX by {
        assert(cell_rule(off, s, c));
        lemma_cell_sound(off, s, c);
    }
    assert forall|c: int| 0 <= c < 64 implies has_bits(
        s,
        off.acc_bits + c * 32,
        (#[trigger] acc[c]) as u32,
    ) by {
        assert(cell_rule(off, s, c));
        lemma_cell_sound(off, s, c);
    }
    lemma_checked_boolean(s, off.xstep_bits as int, 32);
    lemma_cells_word(s, off.xstep_bits as int);
    let y = word_at(s, off.xstep_bits as int);
    lemma_feq_canonical(s[off.xstep as int] as int, y as int);
    let z = xor_fold(acc);
    assert(acc.take(64) =~= acc);
    assert forall|i: int| 0 <= i < 32 implies #[trigger] bit(y, i) == bit(z, i) by {
        assert(column_rule(off, s, i));
        lemma_column_sum(s, off.acc_bits as int, acc, i, 64);
        lemma_xor_fold_parity(acc, i);
        lemma_checked_boolean(s, off.q_bits + i * 7, 7);
        lemma_cells_prefix(s, off.q_bits + i * 7, 7);
        let q = polyval(s, off.q_bits + i * 7, 7, 2);
        assert(s[off.xstep_bits + i] == bit(y, i));
        lemma_bit_bound(y, i);
        let d = bit_count(acc, i) - (bit(y, i) + q * 2);
        lemma_zero_small(d);
    }
    lemma_bits_determine(y, z);
}

/// Quotients fit their seven bits and complete the parity.
proof fn lemma_quotient(acc: Seq<i32>, i: int)
    requires
        acc.len() == 64,
    ensures
        0 <= quotient(acc, i) <= 32,
        bit_count(acc, i) == bit(xor_fold(acc), i) + 2 * quotient(acc, i),
{
    lemma_xor_fold_parity(acc, i);
    lemma_bit_bound(xor_fold(acc), i);
}

/// The row of an accumulator meets the rules.
proof fn lemma_row_rules(w: Window, acc: Seq<i32>)
    requires
        acc.len() == 64,
        row_matches(w.cur, acc),
    ensures
        xstep_rules(XStepOffsets::local(), w),
{
    let off = XStepOffsets::local();
    let s = w.cur;
    let x = xor_fold(acc);
    assert(is_bool(1)) by {
        assert(1 * (1 - 1) == 0);
    }
    assert forall|c: int| 0 <= c < 64 implies #[trigger] cell_rule(off, s, c) by {
        let at = cols::ACC_BITS + c * 32;
        assert(has_bits(s, at, acc[c] as u32));
        lemma_bits_boolean(s, at, acc[c] as u32);
        lemma_boolean_passes(0, s, at, 32);
        lemma_bits_value(s, at, acc[c] as u32);
        assert(s[cols::ACC + c] == acc[c] as u32);
    }
    lemma_bits_boolean(s, cols::XSTEP_BITS as int, x);
    lemma_boolean_passes(0, s, cols::XSTEP_BITS as int, 32);
    lemma_bits_value(s, cols::XSTEP_BITS as int, x);
    assert(acc.take(64) =~= acc);
    assert forall|i: int| 0 <= i < 32 implies #[trigger] column_rule(off, s, i) by {
        let at = cols::Q_BITS + i * 7;
        let q = quotient(acc, i) as u32;
        lemma_quotient(acc, i);
        assert forall|j: int| at <= j < at + 7 implies (#[trigger] s[j]) == bit(q, j - at) by {
            assert(s[cols::Q_BITS + i * 7 + (j - at)] == bit(q, j - at));
        }
        assert(boolean_cells(s, at, 7)) by {
            assert forall|j: int| at <= j < at + 7 implies (#[trigger] s[j] == 0 || s[j] == 1) by {
                lemma_bit_bound(q, j - at);
            }
        }
        lemma_boolean_passes(0, s, at, 7);
        lemma_low_bits(s, at, q, 7);
        assert((q as u64) & (((1u64 << 7u64) - 1) as u64) == q as u64) by (bit_vector)
            requires
                q <= 32,
        ;
        lemma_column_sum(s, cols::ACC_BITS as int, acc, i, 64);
        assert(s[cols::XSTEP_BITS + i] == bit(x, i));
    }
}

/// A row of zeros meets the rules.
proof fn lemma_zero_row_rules(w: Window)
    requires
        forall|c: int| 0 <= c < cols::ROW_W ==> #[trigger] w.cur[c] == 0,
    ensures
        xstep_rules(XStepOffsets::local(), w),
{
    let off = XStepOffsets::local();
    let s = w.cur;
    let acc = Seq::new(64, |c: int| 0i32);
    assert(is_bool(0)) by {
        assert(0 * (0 - 1) == 0);
    }
    assert forall|at: int| cols::ACC <= at && at + 32 <= cols::ROW_W implies #[trigger] has_bits(
        s,
        at,
        0,
    ) by {
        assert forall|j: int| at <= j < at + 32 implies (#[trigger] s[j]) == bit(0, j - at) by {
            crate::bits::lemma_zero_bit(j - at);
        }
    }
    assert forall|c: int| 0 <= c < 64 implies #[trigger] cell_rule(off, s, c) by {
        let at = cols::ACC_BITS + c * 32;
        assert(has_bits(s, at, 0));
        lemma_bits_boolean(s, at, 0);
        lemma_boolean_passes(0, s, at, 32);
        lemma_bits_value(s, at, 0);
        assert(s[cols::ACC + c] == 0);
    }
    assert(has_bits(s, cols::XSTEP_BITS as int, 0));
    lemma_bits_boolean(s, cols::XSTEP_BITS as int, 0);
    lemma_boolean_passes(0, s, cols::XSTEP_BITS as int, 32);
    lemma_bits_value(s, cols::XSTEP_BITS as int, 0);
    assert(0i32 as u32 == 0u32) by (bit_vector);
    assert forall|i: int| 0 <= i < 32 implies #[trigger] column_rule(off, s, i) by {
        let at = cols::Q_BITS + i * 7;
        assert(boolean_cells(s, at, 7));
        lemma_boolean_passes(0, s, at, 7);
        assert forall|j: int| at <= j < at + 7 implies (#[trigger] s[j]) == bit(0, j - at) by {
            crate::bits::lemma_zero_bit(j - at);
        }
        lemma_low_bits(s, at, 0, 7);
        assert(0u64 & (((1u64 << 7u64) - 1) as u64) == 0) by (bit_vector);
        assert forall|c: int| 0 <= c < 64 implies has_bits(
            s,
            cols::ACC_BITS + c * 32,
            (#[trigger] acc[c]) as u32,
        ) by {
            assert(has_bits(s, cols::ACC_BITS + c * 32, 0));
        }
        lemma_column_sum(s, cols::ACC_BITS as int, acc, i, 64);
        lemma_zero_count(64, i);
        assert(acc.take(64) =~= acc);
        assert(s[cols::XSTEP_BITS + i] == 0);
    }
}

/// No bit is set in a list of zeros.
proof fn lemma_zero_count(n: nat, i: int)
    ensures
        bit_count(Seq::new(n, |c: int| 0i32), i) == 0,
        xor_fold(Seq::new(n, |c: int| 0i32)) == 0,
    decreases n,
{
    if n > 0 {
        let s = Seq::new(n, |c: int| 0i32);
        lemma_zero_count((n - 1) as nat, i);
        assert(s.drop_last() =~= Seq::new((n - 1) as nat, |c: int| 0i32));
        assert(0i32 as u32 == 0u32) by (bit_vector);
        crate::bits::lemma_zero_bit(i);
        lemma_xor_algebra(0, 0, 0);
    }
}

/// Padding an accumulator with zeros does not change its exclusive or.
pub proof fn padding_keeps_xor(stripe: Seq<i32>)
    requires
        stripe.len() <= 64,
    ensures
        xor_fold(padded_acc(stripe)) == xor_fold(stripe),
{
    let rest = Seq::new((64 - stripe.len()) as nat, |c: int| 0i32);
    assert(padded_acc(stripe) =~= stripe + rest);
    crate::bits::lemma_xor_fold_concat(stripe, rest);
    lemma_zero_count((64 - stripe.len()) as nat, 0);
    lemma_xor_algebra(xor_fold(stripe), 0, 0);
}

/// The trace of a list of accumulators meets the rules.
pub proof fn built_trace_meets_rules(m: RowMajorMatrix, stripes: Seq<Seq<i32>>)
    requires
        trace_runs(m, stripes),
    ensures
        m.satisfies(|w: Window| xstep_rules(XStepOffsets::local(), w)),
{
    let rule = |w: Window| xstep_rules(XStepOffsets::local(), w);
    assert forall|r: int| 0 <= r < m.spec_height() implies rule(
        #[trigger] m.window(r, Seq::empty(), Seq::empty()),
    ) by {
        let w = m.window(r, Seq::empty(), Seq::empty());
        if r < stripes.len() {
            assert(row_matches(m.row(r), padded_acc(stripes[r])));
            lemma_row_rules(w, padded_acc(stripes[r]));
        } else {
            assert forall|c: int| 0 <= c < cols::ROW_W implies #[trigger] w.cur[c] == 0 by {
                assert(m.row(r)[c] == 0);
            }
            lemma_zero_row_rules(w);
        }
    }
}

/// The scalars read off the first rows of a built trace.
proof fn lemma_active_xsteps(m: RowMajorMatrix, stripes: Seq<Seq<i32>>, n: nat)
    requires
        trace_runs(m, stripes),
        n <= m.spec_height(),
        forall|s: int| 0 <= s < stripes.len() ==> (#[trigger] stripes[s]).len() <= 64,
    ensures
        active_xsteps(m.values@, n) == Seq::new(
            if n <= stripes.len() {
                n
            } else {
                stripes.len()
            },
            |s: int| xor_fold(stripes[s]),
        ),
    decreases n,
{
    if n > 0 {
        lemma_active_xsteps(m, stripes, (n - 1) as nat);
        let r = n - 1;
        let base = r * cols::ROW_W;
        lemma_row_canonical(m, r);
        assert(0 <= base && base + cols::ROW_W <= m.spec_height() * cols::ROW_W)
            by (nonlinear_arith)
            requires
                base == r * cols::ROW_W,
                0 <= r < m.spec_height(),
        ;
        let row = m.row(r);
        assert(row[cols::IS_ACTIVE as int] == m.values@[base + cols::IS_ACTIVE]);
        assert(row[cols::XSTEP as int] == m.values@[base + cols::XSTEP]);
        if r < stripes.len() {
            assert(row_matches(row, padded_acc(stripes[r])));
            padding_keeps_xor(stripes[r]);
        } else {
            assert(m.row(r)[cols::IS_ACTIVE as int] == 0);
        }
    }
    assert(active_xsteps(m.values@, n) =~= Seq::new(
        if n <= stripes.len() {
            n
        } else {
            stripes.len()
        },
        |s: int| xor_fold(stripes[s]),
    ));
}

/// The scalars read off a built trace are the exclusive ors of the
/// accumulators it was built from, in order.
pub proof fn built_trace_carries_xsteps(m: RowMajorMatrix, stripes: Seq<Seq<i32>>)
    requires
        trace_runs(m, stripes),
        forall|s: int| 0 <= s < stripes.len() ==> (#[trigger] stripes[s]).len() <= 64,
    ensures
        active_xsteps(m.values@, m.values@.len() / (cols::ROW_W as nat)) == Seq::new(
            stripes.len(),
            |s: int| xor_fold(stripes[s]),
        ),
{
    padded_height_is_least_power_of_two(stripes.len());
    lemma_active_xsteps(m, stripes, m.spec_height());
}

/// The activity flag is boolean on every row.
pub proof fn activity_is_boolean(off: XStepOffsets, w: Window)
    requires
        w.canonical(),
        off.within(w.cur.len() as int),
        xstep_rules(off, w),
    ensures
        w.cur[off.is_active as int] == 0 || w.cur[off.is_active as int] == 1,
{
    crate::prime::bool_check_is_boolean(w.cur[off.is_active as int] as int);
}

/// A trace is as long as its stripes need, rounded up to a power of two of at
/// least four, and no longer; its rows are active for the stripes and idle
/// after them.
pub proof fn built_trace_is_shortest(m: RowMajorMatrix, stripes: Seq<Seq<i32>>, r: int)
    requires
        trace_runs(m, stripes),
    ensures
        m.spec_height() >= stripes.len(),
        m.spec_height() >= 4,
        m.spec_height() == 4 || m.spec_height() < 2 * stripes.len(),
        exists|k: nat| m.spec_height() == #[trigger] vstd::arithmetic::power2::pow2(k),
        0 <= r < m.spec_height() ==> m.row(r)[cols::IS_ACTIVE as int] == if r < stripes.len() {
            1int
        } else {
            0int
        },
{
    padded_height_is_least_power_of_two(stripes.len());
    if 0 <= r < stripes.len() {
        assert(row_matches(m.row(r), padded_acc(stripes[r])));
    }
}

} // verus!
