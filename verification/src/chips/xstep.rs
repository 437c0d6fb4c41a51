//! The x-step chip: the exclusive or of a whole accumulator on one row.
//!
//! For each output bit the contributing bits add up to the output bit plus
//! twice a quotient, and the quotient is bounded by its own seven bits.

pub mod cols;
pub mod laws;

use vstd::prelude::*;

use crate::air::{
    all_bool, is_bool, polyval, polyval_expr, ConstraintBuilder, Expr, Window,
};
use crate::bits::{
    bit, bit_count, has_bits, lemma_bit_bound, lemma_xor_fold_parity, lemma_xor_fold_step,
    xor_fold,
};
use crate::chips::parity::lemma_pow_small;
use crate::field::{canonical, is_zero, p, Val};
use crate::matrix::{
    flatten_rows, lemma_flatten_push, lemma_matrix_rows, padded_height,
    padded_height_is_least_power_of_two, padded_len, push_row, set_bits, val_of_u32, zero_row,
    RowMajorMatrix,
};

verus! {

/// Cells of an accumulator.
pub const ACC_LEN: usize = 64;

/// Bits of a parity quotient.
pub const QBITS: usize = 7;

/// The x-step chip.
#[derive(Debug, Default, Clone, Copy)]
pub struct XStepChip;

/// Columns of the x-step chip.
#[derive(Copy, Clone, Debug)]
pub struct XStepOffsets {
    pub is_active: usize,
    pub acc: usize,
    pub acc_bits: usize,
    pub xstep: usize,
    pub xstep_bits: usize,
    pub q_bits: usize,
}

impl XStepOffsets {
    /// The columns of the stand-alone chip.
    pub open spec fn local() -> XStepOffsets {
        XStepOffsets {
            is_active: cols::IS_ACTIVE,
            acc: cols::ACC,
            acc_bits: cols::ACC_BITS,
            xstep: cols::XSTEP,
            xstep_bits: cols::XSTEP_BITS,
            q_bits: cols::Q_BITS,
        }
    }

    /// Every column index can be computed.
    pub open spec fn fits(self) -> bool {
        &&& self.acc + 64 <= usize::MAX
        &&& self.acc_bits + 2048 <= usize::MAX
        &&& self.xstep_bits + 32 <= usize::MAX
        &&& self.q_bits + 224 <= usize::MAX
    }

    /// Every column lies within a row.
    pub open spec fn within(self, width: int) -> bool {
        &&& self.is_active < width
        &&& self.acc + 64 <= width
        &&& self.acc_bits + 2048 <= width
        &&& self.xstep < width
        &&& self.xstep_bits + 32 <= width
        &&& self.q_bits + 224 <= width
    }
}

/// The bits of the first cells at one position, added up.
pub open spec fn column_sum(s: Seq<u64>, acc_bits: int, i: int, n: nat) -> int
    decreases n,
{
    if n == 0 {
        0
    } else {
        column_sum(s, acc_bits, i, (n - 1) as nat) + s[acc_bits + (n - 1) * 32 + i]
    }
}

/// An accumulator cell is the value of its bits.
pub open spec fn cell_rule(off: XStepOffsets, s: Seq<u64>, c: int) -> bool {
    &&& all_bool(s, off.acc_bits + c * 32, 32)
    &&& is_zero(s[off.acc + c] - polyval(s, off.acc_bits + c * 32, 32, 2))
}

/// An output bit and its quotient make up the column sum.
pub open spec fn column_rule(off: XStepOffsets, s: Seq<u64>, i: int) -> bool {
    &&& all_bool(s, off.q_bits + i * 7, 7)
    &&& is_zero(
        column_sum(s, off.acc_bits as int, i, 64) - (s[off.xstep_bits + i] + polyval(
            s,
            off.q_bits + i * 7,
            7,
            2,
        ) * 2),
    )
}

/// The constraints of the x-step chip at one window.
pub open spec fn xstep_rules(off: XStepOffsets, w: Window) -> bool {
    &&& is_bool(w.cur[off.is_active as int] as int)
    &&& forall|c: int| 0 <= c < 64 ==> #[trigger] cell_rule(off, w.cur, c)
    &&& all_bool(w.cur, off.xstep_bits as int, 32)
    &&& is_zero(w.cur[off.xstep as int] - polyval(w.cur, off.xstep_bits as int, 32, 2))
    &&& forall|i: int| 0 <= i < 32 ==> #[trigger] column_rule(off, w.cur, i)
}

/// The bits of the accumulator cells at one position, added up.
fn column_expr(acc_bits: usize, i: usize) -> (r: Expr)
    requires
        acc_bits + 2048 <= usize::MAX,
        i < 32,
    ensures
        forall|w: Window| #[trigger]
            r.value(w) == column_sum(w.cur, acc_bits as int, i as int, 64),
        r.degree() <= 1,
{
    let mut acc = Expr::constant(0);
    let mut c: usize = 0;
    while c < ACC_LEN
        invariant
            c <= 64,
            i < 32,
            acc_bits + 2048 <= usize::MAX,
            forall|w: Window| #[trigger]
                acc.value(w) == column_sum(w.cur, acc_bits as int, i as int, c as nat),
            acc.degree() <= 1,
        decreases 64 - c,
    {
        let ghost before = acc;
        acc = acc.plus(Expr::cur(acc_bits + c * 32 + i));
        c = c + 1;
        assert forall|w: Window| #[trigger]
            acc.value(w) == column_sum(w.cur, acc_bits as int, i as int, c as nat) by {
            assert(before.value(w) == column_sum(
                w.cur,
                acc_bits as int,
                i as int,
                (c - 1) as nat,
            ));
        }
    }
    acc
}

impl XStepChip {
    /// The columns of the stand-alone chip.
    pub fn local_offsets() -> (off: XStepOffsets)
        ensures
            off == XStepOffsets::local(),
    {
        XStepOffsets {
            is_active: cols::IS_ACTIVE,
            acc: cols::ACC,
            acc_bits: cols::ACC_BITS,
            xstep: cols::XSTEP,
            xstep_bits: cols::XSTEP_BITS,
            q_bits: cols::Q_BITS,
        }
    }

    /// The number of columns of the stand-alone chip.
    pub fn width(&self) -> (n: usize)
        ensures
            n == cols::ROW_W,
    {
        cols::ROW_W
    }

    /// Emits the constraints of the stand-alone chip.
    pub fn eval(&self, builder: &mut ConstraintBuilder)
        ensures
            forall|w: Window| #[trigger]
                final(builder).holds(w) <==> (old(builder).holds(w) && xstep_rules(
                    XStepOffsets::local(),
                    w,
                )),
            forall|d: nat|
                d >= 2 && old(builder).degree_at_most(d) ==> #[trigger] final(builder).degree_at_most(d),
    {
        let off = Self::local_offsets();
        Self::eval_at(builder, &off);
    }

    /// Emits the constraints on one accumulator cell.
    fn emit_cell(builder: &mut ConstraintBuilder, off: &XStepOffsets, c: usize)
        requires
            off.fits(),
            c < 64,
        ensures
            forall|w: Window| #[trigger]
                final(builder).holds(w) <==> (old(builder).holds(w) && cell_rule(
                    *off,
                    w.cur,
                    c as int,
                )),
            forall|d: nat|
                d >= 2 && old(builder).degree_at_most(d) ==> #[trigger] final(builder).degree_at_most(d),
    {
        proof {
            lemma_pow_small();
        }
        let at: usize = off.acc_bits + c * 32;
        builder.assert_bools(at, 32);
        let ghost b1 = *builder;
        builder.assert_eq(Expr::cur(off.acc + c), polyval_expr(at, 32, 2));
        assert forall|w: Window| #[trigger]
            builder.holds(w) <==> (old(builder).holds(w) && cell_rule(
                *off,
                w.cur,
                c as int,
            )) by {
            assert(b1.holds(w) <==> (old(builder).holds(w) && all_bool(w.cur, at as int, 32)));
        }
    }

    /// Emits the constraints on one output bit.
    fn emit_column(builder: &mut ConstraintBuilder, off: &XStepOffsets, i: usize)
        requires
            off.fits(),
            i < 32,
        ensures
            forall|w: Window| #[trigger]
                final(builder).holds(w) <==> (old(builder).holds(w) && column_rule(
                    *off,
                    w.cur,
                    i as int,
                )),
            forall|d: nat|
                d >= 2 && old(builder).degree_at_most(d) ==> #[trigger] final(builder).degree_at_most(d),
    {
        proof {
            vstd::arithmetic::power2::lemma2_to64();
            vstd::arithmetic::power2::lemma_pow2(7);
        }
        let at: usize = off.q_bits + i * 7;
        builder.assert_bools(at, QBITS);
        let ghost b1 = *builder;
        let sum = column_expr(off.acc_bits, i);
        let twice = polyval_expr(at, QBITS, 2).times(Expr::constant(2));
        let out = Expr::cur(off.xstep_bits + i).plus(twice);
        builder.assert_eq(sum, out);
        assert forall|w: Window| #[trigger]
            builder.holds(w) <==> (old(builder).holds(w) && column_rule(
                *off,
                w.cur,
                i as int,
            )) by {
            assert(b1.holds(w) <==> (old(builder).holds(w) && all_bool(w.cur, at as int, 7)));
            assert(twice.value(w) == polyval(w.cur, at as int, 7, 2) * 2);
            assert(out.value(w) == w.cur[off.xstep_bits + i] + twice.value(w));
        }
    }

    /// Emits the constraints at the given columns.
    pub fn eval_at(builder: &mut ConstraintBuilder, off: &XStepOffsets)
        requires
            off.fits(),
        ensures
            forall|w: Window| #[trigger]
                final(builder).holds(w) <==> (old(builder).holds(w) && xstep_rules(*off, w)),
            forall|d: nat|
                d >= 2 && old(builder).degree_at_most(d) ==> #[trigger] final(builder).degree_at_most(d),
    {
        proof {
            lemma_pow_small();
        }
        builder.assert_bool(off.is_active);
        let ghost b1 = *builder;
        let mut c: usize = 0;
        while c < ACC_LEN
            invariant
                c <= 64,
                off.fits(),
                forall|w: Window| #[trigger]
                    builder.holds(w) <==> (b1.holds(w) && (forall|k: int|
                        0 <= k < c ==> #[trigger] cell_rule(*off, w.cur, k))),
                forall|d: nat|
                    d >= 2 && b1.degree_at_most(d) ==> #[trigger] builder.degree_at_most(d),
            decreases 64 - c,
        {
            let ghost before = *builder;
            Self::emit_cell(builder, off, c);
            c = c + 1;
            assert forall|w: Window| #[trigger]
                builder.holds(w) <==> (b1.holds(w) && (forall|k: int|
                    0 <= k < c ==> #[trigger] cell_rule(*off, w.cur, k))) by {
                assert(builder.holds(w) <==> (before.holds(w) && cell_rule(*off, w.cur, c - 1)));
            }
        }
        let ghost b2 = *builder;
        builder.assert_bools(off.xstep_bits, 32);
        let ghost b3 = *builder;
        builder.assert_eq(Expr::cur(off.xstep), polyval_expr(off.xstep_bits, 32, 2));
        let ghost b4 = *builder;
        let mut i: usize = 0;
        while i < 32
            invariant
                i <= 32,
                off.fits(),
                forall|w: Window| #[trigger]
                    builder.holds(w) <==> (b4.holds(w) && (forall|k: int|
                        0 <= k < i ==> #[trigger] column_rule(*off, w.cur, k))),
                forall|d: nat|
                    d >= 2 && b4.degree_at_most(d) ==> #[trigger] builder.degree_at_most(d),
            decreases 32 - i,
        {
            let ghost before = *builder;
            Self::emit_column(builder, off, i);
            i = i + 1;
            assert forall|w: Window| #[trigger]
                builder.holds(w) <==> (b4.holds(w) && (forall|k: int|
                    0 <= k < i ==> #[trigger] column_rule(*off, w.cur, k))) by {
                assert(builder.holds(w) <==> (before.holds(w) && column_rule(*off, w.cur, i - 1)));
            }
        }
        assert forall|w: Window| #[trigger]
            builder.holds(w) <==> (old(builder).holds(w) && xstep_rules(*off, w)) by {
            assert(b1.holds(w) <==> (old(builder).holds(w) && is_bool(
                w.cur[off.is_active as int] as int,
            )));
            assert(b3.holds(w) <==> (b2.holds(w) && all_bool(w.cur, off.xstep_bits as int, 32)));
            assert(b4.holds(w) <==> (b3.holds(w) && is_zero(
                w.cur[off.xstep as int] - polyval(w.cur, off.xstep_bits as int, 32, 2),
            )));
        }
    }
}

/// The exclusive or of an accumulator's cells, as unsigned words.
pub fn ref_xstep(acc: &[i32]) -> (x: u32)
    ensures
        x == xor_fold(acc@),
{
    let mut x: u32 = 0;
    let mut c: usize = 0;
    assert(acc@.take(0) =~= Seq::empty());
    while c < acc.len()
        invariant
            c <= acc@.len(),
            x == xor_fold(acc@.take(c as int)),
        decreases acc@.len() - c,
    {
        proof {
            lemma_xor_fold_step(acc@, c as int);
        }
        x = x ^ (#[verifier::truncate] (acc[c] as u32));
        c = c + 1;
    }
    assert(acc@.take(c as int) =~= acc@);
    x
}

/// An accumulator padded with zeros to its full size.
pub open spec fn padded_acc(stripe: Seq<i32>) -> Seq<i32> {
    Seq::new(
        64,
        |c: int|
            if c < stripe.len() {
                stripe[c]
            } else {
                0i32
            },
    )
}

/// The quotient that goes with an output bit.
pub open spec fn quotient(acc: Seq<i32>, i: int) -> int {
    (bit_count(acc, i) - bit(xor_fold(acc), i)) / 2
}

/// A row holds an accumulator, its bits, its exclusive or and the quotients.
pub open spec fn row_matches(row: Seq<u64>, acc: Seq<i32>) -> bool {
    &&& row.len() == cols::ROW_W
    &&& canonical(row)
    &&& row[cols::IS_ACTIVE as int] == 1
    &&& forall|c: int| 0 <= c < 64 ==> row[cols::ACC + c] == (#[trigger] acc[c]) as u32
    &&& forall|c: int|
        0 <= c < 64 ==> has_bits(row, cols::ACC_BITS + c * 32, (#[trigger] acc[c]) as u32)
    &&& row[cols::XSTEP as int] == xor_fold(acc)
    &&& has_bits(row, cols::XSTEP_BITS as int, xor_fold(acc))
    &&& forall|i: int, b: int|
        0 <= i < 32 && 0 <= b < 7 ==> #[trigger] row[cols::Q_BITS + i * 7 + b] == bit(
            quotient(acc, i) as u32,
            b,
        )
}

/// A trace reduces a list of accumulators: one row for each, then rows of
/// zeros.
pub open spec fn trace_runs(m: RowMajorMatrix, stripes: Seq<Seq<i32>>) -> bool {
    &&& m.wf()
    &&& m.width == cols::ROW_W
    &&& m.spec_height() == padded_height(stripes.len())
    &&& forall|r: int|
        0 <= r < stripes.len() ==> row_matches(#[trigger] m.row(r), padded_acc(stripes[r]))
    &&& forall|r: int, c: int|
        stripes.len() <= r < m.spec_height() && 0 <= c < cols::ROW_W ==> #[trigger] m.row(r)[c]
            == 0
}

/// The accumulators as sequences.
pub open spec fn stripe_views(stripes: Seq<Vec<i32>>) -> Seq<Seq<i32>> {
    Seq::new(stripes.len(), |s: int| stripes[s]@)
}

/// How many cells have a bit set.
fn count_bits(acc: &Vec<i32>, i: usize) -> (n: u32)
    requires
        acc@.len() == 64,
        i < 32,
    ensures
        n == bit_count(acc@, i as int),
        n <= 64,
{
    let k: u32 = i as u32;
    let mut n: u32 = 0;
    let mut c: usize = 0;
    assert(acc@.take(0) =~= Seq::empty());
    while c < ACC_LEN
        invariant
            c <= 64,
            acc@.len() == 64,
            k == i,
            i < 32,
            n == bit_count(acc@.take(c as int), i as int),
            n <= c,
        decreases 64 - c,
    {
        proof {
            assert(acc@.take(c + 1).drop_last() =~= acc@.take(c as int));
            lemma_bit_bound(acc@[c as int] as u32, i as int);
        }
        let u: u32 = #[verifier::truncate] (acc[c] as u32);
        n = n + ((u >> k) & 1);
        c = c + 1;
    }
    assert(acc@.take(64) =~= acc@);
    n
}

/// Pads an accumulator with zeros.
fn pad_acc(stripe: &Vec<i32>) -> (acc: Vec<i32>)
    requires
        stripe@.len() <= 64,
    ensures
        acc@ == padded_acc(stripe@),
{
    let mut acc: Vec<i32> = Vec::new();
    let mut c: usize = 0;
    while c < ACC_LEN
        invariant
            c <= 64,
            stripe@.len() <= 64,
            acc@ =~= padded_acc(stripe@).take(c as int),
        decreases 64 - c,
    {
        if c < stripe.len() {
            acc.push(stripe[c]);
        } else {
            acc.push(0);
        }
        c = c + 1;
    }
    assert(padded_acc(stripe@).take(64) =~= padded_acc(stripe@));
    acc
}

/// Writes the quotient bits of one output bit.
fn set_quotient(row: &mut Vec<Val>, i: usize, q: u32)
    requires
        i < 32,
        old(row)@.len() == cols::ROW_W,
        canonical(old(row)@),
    ensures
        final(row)@.len() == cols::ROW_W,
        canonical(final(row)@),
        forall|b: int| 0 <= b < 7 ==> #[trigger] final(row)@[cols::Q_BITS + i * 7 + b] == bit(q, b),
        forall|j: int|
            0 <= j < cols::ROW_W && !(cols::Q_BITS + i * 7 <= j < cols::Q_BITS + i * 7 + 7)
                ==> #[trigger] final(row)@[j] == old(row)@[j],
{
    let at: usize = cols::Q_BITS + i * QBITS;
    let mut b: usize = 0;
    while b < QBITS
        invariant
            b <= 7,
            i < 32,
            at == cols::Q_BITS + i * 7,
            old(row)@.len() == cols::ROW_W,
            row@.len() == cols::ROW_W,
            canonical(row@),
            forall|k: int| 0 <= k < b ==> #[trigger] row@[cols::Q_BITS + i * 7 + k] == bit(q, k),
            forall|j: int|
                0 <= j < cols::ROW_W && !(at <= j < at + b) ==> #[trigger] row@[j] == old(row)@[j],
        decreases 7 - b,
    {
        let v: u32 = (q >> (b as u32)) & 1;
        proof {
            lemma_bit_bound(q, b as int);
        }
        row[at + b] = val_of_u32(v);
        b = b + 1;
    }
}

/// Writes an accumulator and its bits into an empty row.
fn set_acc(row: &mut Vec<Val>, acc: &Vec<i32>) -> (x: u32)
    requires
        acc@.len() == 64,
        old(row)@.len() == cols::ROW_W,
        canonical(old(row)@),
    ensures
        x == xor_fold(acc@),
        final(row)@.len() == cols::ROW_W,
        canonical(final(row)@),
        forall|c: int| 0 <= c < 64 ==> final(row)@[cols::ACC + c] == (#[trigger] acc@[c]) as u32,
        forall|c: int|
            0 <= c < 64 ==> has_bits(
                final(row)@,
                cols::ACC_BITS + c * 32,
                (#[trigger] acc@[c]) as u32,
            ),
        forall|j: int|
            0 <= j < cols::ROW_W && !(cols::ACC <= j < cols::XSTEP) ==> #[trigger] final(row)@[j]
                == old(row)@[j],
{
    let mut x: u32 = 0;
    let mut c: usize = 0;
    assert(acc@.take(0) =~= Seq::empty());
    while c < ACC_LEN
        invariant
            c <= 64,
            acc@.len() == 64,
            x == xor_fold(acc@.take(c as int)),
            old(row)@.len() == cols::ROW_W,
            row@.len() == cols::ROW_W,
            canonical(row@),
            forall|k: int| 0 <= k < c ==> row@[cols::ACC + k] == (#[trigger] acc@[k]) as u32,
            forall|k: int|
                0 <= k < c ==> has_bits(row@, cols::ACC_BITS + k * 32, (#[trigger] acc@[k]) as u32),
            forall|j: int|
                0 <= j < cols::ROW_W && !(cols::ACC <= j < cols::XSTEP) ==> #[trigger] row@[j]
                    == old(row)@[j],
        decreases 64 - c,
    {
        let ghost before = row@;
        let u: u32 = #[verifier::truncate] (acc[c] as u32);
        row[cols::ACC + c] = val_of_u32(u);
        let ghost mid = row@;
        set_bits(row, cols::ACC_BITS + c * 32, u);
        proof {
            lemma_xor_fold_step(acc@, c as int);
            assert forall|k: int| 0 <= k < c + 1 implies row@[cols::ACC + k] == (
            #[trigger] acc@[k]) as u32 by {
                assert(row@[cols::ACC + k] == mid[cols::ACC + k]);
            }
            assert forall|k: int| 0 <= k < c + 1 implies has_bits(
                row@,
                cols::ACC_BITS + k * 32,
                (#[trigger] acc@[k]) as u32,
            ) by {
                if k < c {
                    assert(has_bits(before, cols::ACC_BITS + k * 32, acc@[k] as u32));
                    assert forall|j: int|
                        cols::ACC_BITS + k * 32 <= j < cols::ACC_BITS + k * 32 + 32 implies (
                    #[trigger] row@[j]) == bit(acc@[k] as u32, j - (cols::ACC_BITS + k * 32)) by {
                        assert(row@[j] == mid[j]);
                        assert(mid[j] == before[j]);
                    }
                }
            }
            assert forall|j: int|
                0 <= j < cols::ROW_W && !(cols::ACC <= j < cols::XSTEP) implies #[trigger] row@[j]
                == old(row)@[j] by {
                assert(row@[j] == mid[j]);
                assert(mid[j] == before[j]);
            }
            assert forall|j: int| 0 <= j < row@.len() implies (#[trigger] row@[j]) < p() by {
                if cols::ACC_BITS + c * 32 <= j < cols::ACC_BITS + c * 32 + 32 {
                    lemma_bit_bound(u, j - (cols::ACC_BITS + c * 32));
                } else {
                    assert(row@[j] == mid[j]);
                }
            }
        }
        x = x ^ u;
        c = c + 1;
    }
    assert(acc@.take(64) =~= acc@);
    x
}

/// The row of one accumulator.
fn active_row(stripe: &Vec<i32>) -> (row: Vec<Val>)
    requires
        stripe@.len() <= 64,
    ensures
        row_matches(row@, padded_acc(stripe@)),
{
    let acc = pad_acc(stripe);
    let mut row = zero_row(cols::ROW_W);
    row[cols::IS_ACTIVE] = val_of_u32(1);
    let x: u32 = set_acc(&mut row, &acc);
    let ghost r1 = row@;
    row[cols::XSTEP] = val_of_u32(x);
    set_bits(&mut row, cols::XSTEP_BITS, x);
    let ghost r2 = row@;
    proof {
        assert forall|j: int| 0 <= j < r2.len() implies (#[trigger] r2[j]) < p() by {
            if cols::XSTEP_BITS <= j < cols::XSTEP_BITS + 32 {
                lemma_bit_bound(x, j - cols::XSTEP_BITS);
            } else if j != cols::XSTEP {
                assert(r2[j] == r1[j]);
            }
        }
        assert forall|j: int| 0 <= j < cols::XSTEP implies #[trigger] r2[j] == r1[j] by {}
    }
    let mut i: usize = 0;
    while i < 32
        invariant
            i <= 32,
            acc@.len() == 64,
            x == xor_fold(acc@),
            r2.len() == cols::ROW_W,
            row@.len() == cols::ROW_W,
            canonical(row@),
            forall|k: int, b: int|
                0 <= k < i && 0 <= b < 7 ==> #[trigger] row@[cols::Q_BITS + k * 7 + b] == bit(
                    quotient(acc@, k) as u32,
                    b,
                ),
            forall|j: int| 0 <= j < cols::Q_BITS ==> #[trigger] row@[j] == r2[j],
        decreases 32 - i,
    {
        let ghost before = row@;
        proof {
            lemma_xor_fold_parity(acc@, i as int);
        }
        let sum: u32 = count_bits(&acc, i);
        let b: u32 = (x >> (i as u32)) & 1;
        let q: u32 = (sum - b) / 2;
        set_quotient(&mut row, i, q);
        proof {
            assert forall|k: int, b: int|
                0 <= k < i + 1 && 0 <= b < 7 implies #[trigger] row@[cols::Q_BITS + k * 7 + b]
                == bit(quotient(acc@, k) as u32, b) by {
                if k < i {
                    assert(row@[cols::Q_BITS + k * 7 + b] == before[cols::Q_BITS + k * 7 + b]);
                }
            }
        }
        i = i + 1;
    }
    proof {
        let s = row@;
        assert forall|c: int| 0 <= c < 64 implies s[cols::ACC + c] == (
        #[trigger] acc@[c]) as u32 by {
            assert(r1[cols::ACC + c] == acc@[c] as u32);
            assert(s[cols::ACC + c] == r2[cols::ACC + c]);
        }
        assert forall|c: int| 0 <= c < 64 implies has_bits(
            s,
            cols::ACC_BITS + c * 32,
            (#[trigger] acc@[c]) as u32,
        ) by {
            assert(has_bits(r1, cols::ACC_BITS + c * 32, acc@[c] as u32));
            assert forall|j: int|
                cols::ACC_BITS + c * 32 <= j < cols::ACC_BITS + c * 32 + 32 implies (
            #[trigger] s[j]) == bit(acc@[c] as u32, j - (cols::ACC_BITS + c * 32)) by {
                assert(s[j] == r2[j]);
                assert(r2[j] == r1[j]);
            }
        }
        assert(s[cols::XSTEP as int] == r2[cols::XSTEP as int]);
        assert(has_bits(s, cols::XSTEP_BITS as int, x)) by {
            assert forall|j: int|
                cols::XSTEP_BITS <= j < cols::XSTEP_BITS + 32 implies (#[trigger] s[j]) == bit(
                x,
                j - cols::XSTEP_BITS,
            ) by {
                assert(s[j] == r2[j]);
            }
        }
        assert(s[cols::IS_ACTIVE as int] == r2[cols::IS_ACTIVE as int]);
    }
    row
}

/// The trace of a list of accumulators: one active row for each, then rows of
/// zeros, up to a power of two of at least four rows. Short accumulators are
/// padded with zeros.
pub fn build_trace(stripes: &[Vec<i32>]) -> (m: RowMajorMatrix)
    requires
        stripes@.len() > 0,
        forall|s: int| 0 <= s < stripes@.len() ==> (#[trigger] stripes@[s])@.len() <= ACC_LEN,
        padded_height(stripes@.len()) * cols::ROW_W <= usize::MAX,
    ensures
        trace_runs(m, stripe_views(stripes@)),
{
    let ghost views = stripe_views(stripes@);
    let ghost h = padded_height(stripes@.len());
    proof {
        padded_height_is_least_power_of_two(stripes@.len());
        assert(h <= h * cols::ROW_W) by (nonlinear_arith)
            requires
                h >= 0,
        ;
    }
    let n: usize = padded_len(stripes.len());
    let mut values: Vec<Val> = Vec::new();
    let ghost mut rows: Seq<Seq<u64>> = Seq::empty();
    let mut r: usize = 0;
    while r < stripes.len()
        invariant
            r <= stripes@.len(),
            views == stripe_views(stripes@),
            forall|s: int| 0 <= s < stripes@.len() ==> (#[trigger] stripes@[s])@.len() <= ACC_LEN,
            rows.len() == r,
            values@ == flatten_rows(rows),
            forall|k: int| 0 <= k < r ==> row_matches(#[trigger] rows[k], padded_acc(views[k])),
        decreases stripes@.len() - r,
    {
        assert(stripes@[r as int]@.len() <= ACC_LEN);
        let row = active_row(&stripes[r]);
        push_row(&mut values, &row);
        proof {
            lemma_flatten_push(rows, row@);
            rows = rows.push(row@);
        }
        r = r + 1;
    }
    while r < n
        invariant
            stripes@.len() <= r <= n,
            views == stripe_views(stripes@),
            rows.len() == r,
            values@ == flatten_rows(rows),
            forall|k: int|
                0 <= k < views.len() ==> row_matches(#[trigger] rows[k], padded_acc(views[k])),
            forall|k: int|
                views.len() <= k < r ==> (#[trigger] rows[k]).len() == cols::ROW_W && canonical(
                    rows[k],
                ),
            forall|k: int, c: int|
                views.len() <= k < r && 0 <= c < cols::ROW_W ==> #[trigger] rows[k][c] == 0,
        decreases n - r,
    {
        let row = zero_row(cols::ROW_W);
        push_row(&mut values, &row);
        proof {
            lemma_flatten_push(rows, row@);
            rows = rows.push(row@);
        }
        r = r + 1;
    }
    let m = RowMajorMatrix { values, width: cols::ROW_W };
    proof {
        assert forall|k: int| 0 <= k < rows.len() implies (#[trigger] rows[k]).len() == m.width by {
            if k < views.len() {
                assert(row_matches(rows[k], padded_acc(views[k])));
            }
        }
        assert forall|k: int| 0 <= k < rows.len() implies canonical(#[trigger] rows[k]) by {
            if k < views.len() {
                assert(row_matches(rows[k], padded_acc(views[k])));
            }
        }
        lemma_matrix_rows(m, rows);
        assert forall|k: int| 0 <= k < views.len() implies row_matches(
            #[trigger] m.row(k),
            padded_acc(views[k]),
        ) by {
            assert(m.row(k) == rows[k]);
        }
        assert forall|k: int, c: int|
            views.len() <= k < m.spec_height() && 0 <= c < cols::ROW_W implies #[trigger] m.row(
            k,
        )[c] == 0 by {
            assert(m.row(k) == rows[k]);
        }
    }
    m
}

/// The exclusive ors that the active rows among the first `n` carry, in order.
pub open spec fn active_xsteps(values: Seq<u64>, n: nat) -> Seq<u32>
    decreases n,
{
    if n == 0 {
        Seq::empty()
    } else {
        let base = (n - 1) * cols::ROW_W;
        let rest = active_xsteps(values, (n - 1) as nat);
        if values[base + cols::IS_ACTIVE] == 1 {
            rest.push(values[base + cols::XSTEP] as u32)
        } else {
            rest
        }
    }
}

/// The exclusive ors that the active rows of a trace carry, in order, each cut
/// to 32 bits.
pub fn xsteps(trace: &RowMajorMatrix) -> (steps: Vec<u32>)
    ensures
        steps@ == active_xsteps(trace.values@, trace.values@.len() / (cols::ROW_W as nat)),
{
    let h: usize = trace.values.len() / cols::ROW_W;
    let mut steps: Vec<u32> = Vec::new();
    let mut r: usize = 0;
    proof {
        let len = trace.values@.len() as int;
        vstd::arithmetic::div_mod::lemma_fundamental_div_mod(len, cols::ROW_W as int);
        vstd::arithmetic::div_mod::lemma_mod_bound(len, cols::ROW_W as int);
        let rest = len % (cols::ROW_W as int);
        assert(h * cols::ROW_W <= len) by (nonlinear_arith)
            requires
                len == cols::ROW_W * h + rest,
                rest >= 0,
        ;
    }
    while r < h
        invariant
            r <= h,
            h * cols::ROW_W <= trace.values.len(),
            steps@ == active_xsteps(trace.values@, r as nat),
        decreases h - r,
    {
        assert(r * cols::ROW_W + cols::ROW_W <= h * cols::ROW_W) by (nonlinear_arith)
            requires
                r < h,
        ;
        let base: usize = r * cols::ROW_W;
        if trace.values[base + cols::IS_ACTIVE] == 1 {
            steps.push(#[verifier::truncate] (trace.values[base + cols::XSTEP] as u32));
        }
        r = r + 1;
    }
    steps
}

} // verus!
