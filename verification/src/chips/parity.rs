//! The parity block: five-way exclusive or of 32-bit words, bit by bit.
//!
//! Exclusive or is not a field operation. Each output bit is the parity of
//! the five contributing bits at its position, stated as
//! `operand + in_0 + in_1 + in_2 + in_3 == new + 2 * q` with `new` boolean and
//! the quotient `q` in `0..=2`.

use vstd::prelude::*;

use crate::air::{
    all_bool_when, all_ternary, polyval, polyval_expr, ConstraintBuilder, Expr, Window,
};
use crate::bits::{
    bit, bit_count, boolean_cells, has_bits, lemma_bit_bound, lemma_bits_boolean,
    lemma_bits_determine, lemma_bits_value, lemma_cells_word, lemma_signed_word, lemma_word_signed,
    lemma_xor_bit, lemma_xor_fold_parity, word_at, xor_fold,
};
use crate::field::{
    canonical, decode_i32, decode_inverts_encode, enc, feq, is_zero, lemma_enc_feq,
    lemma_feq_canonical, lemma_zero_small, p, Val,
};
use crate::matrix::{set_bits, val_of_i32, val_of_u32};
use crate::prime::{bool_check_is_boolean, cubic_check_is_ternary};

verus! {

/// Words folded into the operand by one block.
pub const IN_LEN: usize = 4;

/// Columns of a parity block.
#[derive(Copy, Clone, Debug)]
pub struct ParityOffsets {
    /// The four signed words folded in.
    pub in_cells: usize,
    /// Their bits, 32 columns each.
    pub in_bits: usize,
    /// The bits of the operand.
    pub op_bits: usize,
    /// The result.
    pub new: usize,
    /// The bits of the result.
    pub new_bits: usize,
    /// The parity quotients.
    pub q: usize,
}

impl ParityOffsets {
    /// Every column index can be computed.
    pub open spec fn fits(self) -> bool {
        &&& self.in_cells + 4 <= usize::MAX
        &&& self.in_bits + 128 <= usize::MAX
        &&& self.op_bits + 32 <= usize::MAX
        &&& self.new_bits + 32 <= usize::MAX
        &&& self.q + 32 <= usize::MAX
    }

    /// Every column lies within a row.
    pub open spec fn within(self, width: int) -> bool {
        &&& self.in_cells + 4 <= width
        &&& self.in_bits + 128 <= width
        &&& self.op_bits + 32 <= width
        &&& self.new < width
        &&& self.new_bits + 32 <= width
        &&& self.q + 32 <= width
    }

    /// The column groups follow one another within a row.
    pub open spec fn ordered(self, width: int) -> bool {
        &&& self.in_cells + 4 <= self.in_bits
        &&& self.in_bits + 128 <= self.op_bits
        &&& self.op_bits + 32 <= self.new
        &&& self.new + 1 <= self.new_bits
        &&& self.new_bits + 32 <= self.q
        &&& self.q + 32 <= width
    }
}

/// The five bits that contribute to an output bit, added up.
pub open spec fn column_sum(off: ParityOffsets, s: Seq<u64>, i: int) -> int {
    s[off.op_bits + i] + s[off.in_bits + i] + s[off.in_bits + 32 + i] + s[off.in_bits + 64 + i]
        + s[off.in_bits + 96 + i]
}

/// An input cell is the two's-complement value of its bits.
pub open spec fn input_rule(off: ParityOffsets, gate: int, s: Seq<u64>, c: int) -> bool {
    &&& all_bool_when(gate, s, off.in_bits + c * 32, 32)
    &&& is_zero(
        gate * (s[off.in_cells + c] - (polyval(s, off.in_bits + c * 32, 32, 2) - s[off.in_bits + c
            * 32 + 31] * 0x1_0000_0000)),
    )
}

/// An output bit and its quotient make up the column sum.
pub open spec fn parity_rule(off: ParityOffsets, gate: int, s: Seq<u64>, i: int) -> bool {
    is_zero(gate * (column_sum(off, s, i) - (s[off.new_bits + i] + s[off.q + i] * 2)))
}

/// The gated constraints of a parity block whose operand has a given value.
pub open spec fn parity_block(off: ParityOffsets, gate: int, operand: int, s: Seq<u64>) -> bool {
    &&& forall|c: int| 0 <= c < 4 ==> #[trigger] input_rule(off, gate, s, c)
    &&& all_bool_when(gate, s, off.op_bits as int, 32)
    &&& is_zero(gate * (polyval(s, off.op_bits as int, 32, 2) - operand))
    &&& all_bool_when(gate, s, off.new_bits as int, 32)
    &&& is_zero(gate * (s[off.new as int] - polyval(s, off.new_bits as int, 32, 2)))
    &&& forall|i: int| 0 <= i < 32 ==> #[trigger] parity_rule(off, gate, s, i)
}

/// Emits the constraint that one input cell is the value of its bits.
fn emit_input(b: &mut ConstraintBuilder, gate: &Expr, off: &ParityOffsets, c: usize)
    requires
        off.fits(),
        c < 4,
        gate.degree() <= 1,
    ensures
        forall|w: Window| #[trigger]
            final(b).holds(w) <==> (old(b).holds(w) && input_rule(
                *off,
                gate.value(w),
                w.cur,
                c as int,
            )),
        forall|d: nat|
            d >= 3 && old(b).degree_at_most(d) ==> #[trigger] final(b).degree_at_most(d),
{
    let at: usize = off.in_bits + c * 32;
    proof {
        lemma_pow_small();
    }
    b.assert_bools_when(gate, at, 32);
    let ghost mid = *b;
    let recon = polyval_expr(at, 32, 2);
    let sign = Expr::cur(at + 31).times(Expr::constant(0x1_0000_0000));
    let diff = Expr::cur(off.in_cells + c).minus(recon.minus(sign));
    let e = gate.dup().times(diff);
    b.assert_zero(e);
    assert forall|w: Window| #[trigger]
        b.holds(w) <==> (old(b).holds(w) && input_rule(
            *off,
            gate.value(w),
            w.cur,
            c as int,
        )) by {
        assert(mid.holds(w) <==> (old(b).holds(w) && all_bool_when(
            gate.value(w),
            w.cur,
            at as int,
            32,
        )));
        assert(e.value(w) == gate.value(w) * diff.value(w));
    }
}

/// Emits the constraint on one output bit.
fn emit_parity(b: &mut ConstraintBuilder, gate: &Expr, off: &ParityOffsets, i: usize)
    requires
        off.fits(),
        i < 32,
        gate.degree() <= 1,
    ensures
        forall|w: Window| #[trigger]
            final(b).holds(w) <==> (old(b).holds(w) && parity_rule(
                *off,
                gate.value(w),
                w.cur,
                i as int,
            )),
        forall|d: nat|
            d >= 3 && old(b).degree_at_most(d) ==> #[trigger] final(b).degree_at_most(d),
{
    let s0 = Expr::cur(off.op_bits + i).plus(Expr::cur(off.in_bits + i));
    let s1 = s0.plus(Expr::cur(off.in_bits + 32 + i));
    let s2 = s1.plus(Expr::cur(off.in_bits + 64 + i));
    let sum = s2.plus(Expr::cur(off.in_bits + 96 + i));
    let out = Expr::cur(off.new_bits + i).plus(Expr::cur(off.q + i).times(Expr::constant(2)));
    let diff = sum.minus(out);
    let e = gate.dup().times(diff);
    b.assert_zero(e);
    assert forall|w: Window| #[trigger]
        b.holds(w) <==> (old(b).holds(w) && parity_rule(
            *off,
            gate.value(w),
            w.cur,
            i as int,
        )) by {
        assert(s2.value(w) == s1.value(w) + w.cur[off.in_bits + 64 + i]);
        assert(s1.value(w) == s0.value(w) + w.cur[off.in_bits + 32 + i]);
        assert(sum.value(w) == column_sum(*off, w.cur, i as int));
        assert(e.value(w) == gate.value(w) * diff.value(w));
    }
}

/// Two to the thirty-second fits a word of the trace.
pub proof fn lemma_pow_small()
    ensures
        vstd::arithmetic::power::pow(2, 32) == 0x1_0000_0000,
{
    vstd::arithmetic::power2::lemma2_to64();
    vstd::arithmetic::power2::lemma_pow2(32);
}

/// Emits the gated constraints of a parity block.
pub fn emit_parity_block(
    b: &mut ConstraintBuilder,
    gate: &Expr,
    off: &ParityOffsets,
    operand: Expr,
)
    requires
        off.fits(),
        gate.degree() <= 1,
        operand.degree() <= 2,
    ensures
        forall|w: Window| #[trigger]
            final(b).holds(w) <==> (old(b).holds(w) && parity_block(
                *off,
                gate.value(w),
                operand.value(w),
                w.cur,
            )),
        forall|d: nat|
            d >= 3 && old(b).degree_at_most(d) ==> #[trigger] final(b).degree_at_most(d),
{
    proof {
        lemma_pow_small();
    }
    let ghost b0 = *b;
    let mut c: usize = 0;
    while c < 4
        invariant
            c <= 4,
            off.fits(),
            gate.degree() <= 1,
            forall|w: Window| #[trigger]
                b.holds(w) <==> (b0.holds(w) && (forall|k: int|
                    0 <= k < c ==> #[trigger] input_rule(*off, gate.value(w), w.cur, k))),
            forall|d: nat|
                d >= 3 && b0.degree_at_most(d) ==> #[trigger] b.degree_at_most(d),
        decreases 4 - c,
    {
        let ghost before = *b;
        emit_input(b, gate, off, c);
        c = c + 1;
        assert forall|w: Window| #[trigger]
            b.holds(w) <==> (b0.holds(w) && (forall|k: int|
                0 <= k < c ==> #[trigger] input_rule(*off, gate.value(w), w.cur, k))) by {
            assert(b.holds(w) <==> (before.holds(w) && input_rule(
                *off,
                gate.value(w),
                w.cur,
                c - 1,
            )));
        }
    }
    let ghost b1 = *b;
    b.assert_bools_when(gate, off.op_bits, 32);
    let ghost b2 = *b;
    let op_diff = polyval_expr(off.op_bits, 32, 2).minus(operand);
    let op_rule = gate.dup().times(op_diff);
    b.assert_zero(op_rule);
    let ghost b3 = *b;
    b.assert_bools_when(gate, off.new_bits, 32);
    let ghost b4 = *b;
    let new_diff = Expr::cur(off.new).minus(polyval_expr(off.new_bits, 32, 2));
    let new_rule = gate.dup().times(new_diff);
    b.assert_zero(new_rule);
    let ghost b5 = *b;
    let mut i: usize = 0;
    while i < 32
        invariant
            i <= 32,
            off.fits(),
            gate.degree() <= 1,
            forall|w: Window| #[trigger]
                b.holds(w) <==> (b5.holds(w) && (forall|k: int|
                    0 <= k < i ==> #[trigger] parity_rule(*off, gate.value(w), w.cur, k))),
            forall|d: nat|
                d >= 3 && b5.degree_at_most(d) ==> #[trigger] b.degree_at_most(d),
        decreases 32 - i,
    {
        let ghost before = *b;
        emit_parity(b, gate, off, i);
        i = i + 1;
        assert forall|w: Window| #[trigger]
            b.holds(w) <==> (b5.holds(w) && (forall|k: int|
                0 <= k < i ==> #[trigger] parity_rule(*off, gate.value(w), w.cur, k))) by {
            assert(b.holds(w) <==> (before.holds(w) && parity_rule(
                *off,
                gate.value(w),
                w.cur,
                i - 1,
            )));
        }
    }
    assert forall|w: Window| #[trigger]
        b.holds(w) <==> (old(b).holds(w) && parity_block(
            *off,
            gate.value(w),
            operand.value(w),
            w.cur,
        )) by {
        let g = gate.value(w);
        assert(b2.holds(w) <==> (b1.holds(w) && all_bool_when(g, w.cur, off.op_bits as int, 32)));
        assert(op_rule.value(w) == g * op_diff.value(w));
        assert(b3.holds(w) <==> (b2.holds(w) && is_zero(op_rule.value(w))));
        assert(b4.holds(w) <==> (b3.holds(w) && all_bool_when(g, w.cur, off.new_bits as int, 32)));
        assert(new_rule.value(w) == g * new_diff.value(w));
        assert(b5.holds(w) <==> (b4.holds(w) && is_zero(new_rule.value(w))));
    }
}

/// The four signed words that the input cells stand for.
pub open spec fn inputs(off: ParityOffsets, s: Seq<u64>) -> Seq<i32> {
    Seq::new(4, |c: int| decode_i32(s[off.in_cells + c]))
}

/// Cells that pass the boolean check under an open gate are boolean.
pub proof fn lemma_open_gate_boolean(s: Seq<u64>, start: int, n: int)
    requires
        canonical(s),
        0 <= start,
        start + n <= s.len(),
        all_bool_when(1, s, start, n),
    ensures
        boolean_cells(s, start, n),
{
    assert forall|j: int| start <= j < start + n implies (#[trigger] s[j] == 0 || s[j] == 1) by {
        let x = s[j] as int;
        assert(1 * (x * (x - 1)) == x * (x - 1));
        bool_check_is_boolean(x);
    }
}

/// Boolean cells pass the boolean check under any gate.
pub proof fn lemma_boolean_passes(gate: int, s: Seq<u64>, start: int, n: int)
    requires
        boolean_cells(s, start, n),
    ensures
        all_bool_when(gate, s, start, n),
        crate::air::all_bool(s, start, n),
{
    assert forall|j: int| start <= j < start + n implies is_zero(
        gate * (((#[trigger] s[j]) as int) * (s[j] - 1)),
    ) && is_zero((s[j] as int) * (s[j] - 1)) by {
        let x = s[j] as int;
        assert(x * (x - 1) == 0) by (nonlinear_arith)
            requires
                x == 0 || x == 1,
        ;
        assert(gate * 0 == 0);
    }
    assert forall|j: int| start <= j < start + n implies crate::air::is_bool(
        (#[trigger] s[j]) as int,
    ) by {
        assert(is_zero((s[j] as int) * (s[j] - 1)));
    }
}

/// A closed gate asks nothing.
pub proof fn lemma_closed_gate(off: ParityOffsets, operand: int, s: Seq<u64>)
    ensures
        parity_block(off, 0, operand, s),
{
    assert forall|x: int| #[trigger] (0 * x) == 0 by {}
    assert forall|start: int, n: int| #[trigger] all_bool_when(0, s, start, n) by {
        assert forall|j: int| start <= j < start + n implies is_zero(
            0 * (((#[trigger] s[j]) as int) * (s[j] - 1)),
        ) by {}
    }
}

/// The bits of four words at one position, added up.
pub proof fn lemma_bit_count_four(s: Seq<i32>, i: int)
    requires
        s.len() == 4,
    ensures
        bit_count(s, i) == bit(s[0] as u32, i) + bit(s[1] as u32, i) + bit(s[2] as u32, i) + bit(
            s[3] as u32,
            i,
        ),
{
    let s3 = s.drop_last();
    let s2 = s3.drop_last();
    let s1 = s2.drop_last();
    assert(s1.drop_last().len() == 0);
    assert(bit_count(s1.drop_last(), i) == 0);
    assert(bit_count(s1, i) == bit_count(s1.drop_last(), i) + bit(s1.last() as u32, i));
    assert(bit_count(s2, i) == bit_count(s1, i) + bit(s2.last() as u32, i));
    assert(bit_count(s3, i) == bit_count(s2, i) + bit(s3.last() as u32, i));
}

/// An input cell that meets its rule stands for the signed word of its bits.
proof fn lemma_input_sound(off: ParityOffsets, s: Seq<u64>, c: int)
    requires
        canonical(s),
        off.within(s.len() as int),
        0 <= c < 4,
        input_rule(off, 1, s, c),
    ensures
        inputs(off, s)[c] as u32 == word_at(s, off.in_bits + c * 32),
        s[off.in_cells + c] == enc(inputs(off, s)[c] as int),
        has_bits(s, off.in_bits + c * 32, inputs(off, s)[c] as u32),
        boolean_cells(s, off.in_bits + c * 32, 32),
{
    let at = off.in_bits + c * 32;
    lemma_open_gate_boolean(s, at, 32);
    lemma_cells_word(s, at);
    let u = word_at(s, at);
    lemma_word_signed(u);
    let v = u as i32;
    assert(s[at + 31] == bit(u, 31));
    let cell = s[off.in_cells + c] as int;
    assert(is_zero(1 * (cell - v)));
    assert(feq(cell, v as int));
    lemma_enc_feq(v as int);
    crate::field::lemma_zero_add(cell - v, v - enc(v as int));
    assert(feq(cell, enc(v as int)));
    lemma_feq_canonical(cell, enc(v as int));
    decode_inverts_encode(v);
}

/// A parity block under an open gate computes the exclusive or: its inputs
/// are field elements of signed words, its operand is a word, and its result
/// is the operand folded with the inputs.
pub proof fn parity_block_is_xor(off: ParityOffsets, operand: int, s: Seq<u64>)
    requires
        canonical(s),
        off.within(s.len() as int),
        parity_block(off, 1, operand, s),
        all_ternary(s, off.q as int, 32),
        0 <= operand < p(),
    ensures
        operand <= u32::MAX,
        s[off.new as int] == (operand as u32) ^ xor_fold(inputs(off, s)),
        forall|c: int|
            0 <= c < 4 ==> s[off.in_cells + c] == enc(#[trigger] inputs(off, s)[c] as int),
{
    lemma_open_gate_boolean(s, off.op_bits as int, 32);
    lemma_open_gate_boolean(s, off.new_bits as int, 32);
    lemma_cells_word(s, off.op_bits as int);
    lemma_cells_word(s, off.new_bits as int);
    let x = word_at(s, off.op_bits as int);
    let y = word_at(s, off.new_bits as int);
    assert(feq(x as int, operand));
    lemma_feq_canonical(x as int, operand);
    let cell = s[off.new as int] as int;
    assert(feq(cell, y as int));
    lemma_feq_canonical(cell, y as int);
    let ins = inputs(off, s);
    assert forall|c: int| 0 <= c < 4 implies s[off.in_cells + c] == enc(
        #[trigger] inputs(off, s)[c] as int,
    ) by {
        assert(input_rule(off, 1, s, c));
        lemma_input_sound(off, s, c);
    }
    let z = x ^ xor_fold(ins);
    assert forall|i: int| 0 <= i < 32 implies #[trigger] bit(y, i) == bit(z, i) by {
        assert(parity_rule(off, 1, s, i));
        assert(input_rule(off, 1, s, 0));
        assert(input_rule(off, 1, s, 1));
        assert(input_rule(off, 1, s, 2));
        assert(input_rule(off, 1, s, 3));
        lemma_input_sound(off, s, 0);
        lemma_input_sound(off, s, 1);
        lemma_input_sound(off, s, 2);
        lemma_input_sound(off, s, 3);
        assert(s[off.in_bits + i] == bit(ins[0] as u32, i));
        assert(s[off.in_bits + 32 + i] == bit(ins[1] as u32, i));
        assert(s[off.in_bits + 64 + i] == bit(ins[2] as u32, i));
        assert(s[off.in_bits + 96 + i] == bit(ins[3] as u32, i));
        assert(s[off.op_bits + i] == bit(x, i));
        assert(s[off.new_bits + i] == bit(y, i));
        lemma_bit_count_four(ins, i);
        lemma_xor_fold_parity(ins, i);
        lemma_xor_bit(x, xor_fold(ins), i);
        lemma_bit_bound(x, i);
        lemma_bit_bound(y, i);
        let q = s[off.q + i] as int;
        assert(crate::air::is_ternary(q));
        cubic_check_is_ternary(q);
        let d = column_sum(off, s, i) - (bit(y, i) + q * 2);
        assert(is_zero(1 * d));
        assert(is_zero(d));
        lemma_zero_small(d);
        assert(bit(x, i) + bit_count(ins, i) == bit(y, i) + 2 * q);
    }
    lemma_bits_determine(y, z);
}

/// The quotient that goes with an output bit.
pub open spec fn quotient(x: u32, in4: Seq<i32>, i: int) -> int {
    (bit(x, i) + bit_count(in4, i) - bit(x ^ xor_fold(in4), i)) / 2
}

/// The block's cells hold an operand's bits, four inputs and the result.
pub open spec fn parity_filled(off: ParityOffsets, s: Seq<u64>, x: u32, in4: Seq<i32>) -> bool {
    &&& forall|c: int| 0 <= c < 4 ==> s[off.in_cells + c] == enc(#[trigger] in4[c] as int)
    &&& forall|c: int| 0 <= c < 4 ==> has_bits(s, off.in_bits + c * 32, #[trigger] in4[c] as u32)
    &&& has_bits(s, off.op_bits as int, x)
    &&& s[off.new as int] == x ^ xor_fold(in4)
    &&& has_bits(s, off.new_bits as int, x ^ xor_fold(in4))
    &&& forall|j: int|
        off.q <= j < off.q + 32 ==> #[trigger] s[j] == quotient(x, in4, j - off.q)
}

/// Quotients are `0`, `1` or `2` and complete the parity.
pub proof fn lemma_quotient(x: u32, in4: Seq<i32>, i: int)
    requires
        in4.len() == 4,
    ensures
        0 <= quotient(x, in4, i) <= 2,
        bit(x, i) + bit_count(in4, i) == bit(x ^ xor_fold(in4), i) + 2 * quotient(x, in4, i),
{
    lemma_xor_fold_parity(in4, i);
    lemma_xor_bit(x, xor_fold(in4), i);
    lemma_bit_bound(x, i);
    lemma_bit_bound(xor_fold(in4), i);
}

/// A filled block meets the constraints under an open gate.
pub proof fn lemma_filled_block_holds(off: ParityOffsets, s: Seq<u64>, x: u32, in4: Seq<i32>)
    requires
        in4.len() == 4,
        parity_filled(off, s, x, in4),
    ensures
        parity_block(off, 1, x as int, s),
        all_ternary(s, off.q as int, 32),
{
    let y = x ^ xor_fold(in4);
    lemma_bits_boolean(s, off.op_bits as int, x);
    lemma_bits_boolean(s, off.new_bits as int, y);
    lemma_boolean_passes(1, s, off.op_bits as int, 32);
    lemma_boolean_passes(1, s, off.new_bits as int, 32);
    lemma_bits_value(s, off.op_bits as int, x);
    lemma_bits_value(s, off.new_bits as int, y);
    assert forall|c: int| 0 <= c < 4 implies #[trigger] input_rule(off, 1, s, c) by {
        let at = off.in_bits + c * 32;
        let v = in4[c];
        lemma_bits_boolean(s, at, v as u32);
        lemma_boolean_passes(1, s, at, 32);
        lemma_bits_value(s, at, v as u32);
        lemma_signed_word(v);
        assert(s[at + 31] == bit(v as u32, 31));
        lemma_enc_feq(v as int);
        assert(is_zero(1 * (enc(v as int) - v)));
    }
    assert forall|i: int| 0 <= i < 32 implies #[trigger] parity_rule(off, 1, s, i) by {
        lemma_quotient(x, in4, i);
        lemma_bit_count_four(in4, i);
        assert(has_bits(s, off.in_bits + 0 * 32, in4[0] as u32));
        assert(has_bits(s, off.in_bits + 1 * 32, in4[1] as u32));
        assert(has_bits(s, off.in_bits + 2 * 32, in4[2] as u32));
        assert(has_bits(s, off.in_bits + 3 * 32, in4[3] as u32));
        assert(s[off.in_bits + i] == bit(in4[0] as u32, i));
        assert(s[off.in_bits + 32 + i] == bit(in4[1] as u32, i));
        assert(s[off.in_bits + 64 + i] == bit(in4[2] as u32, i));
        assert(s[off.in_bits + 96 + i] == bit(in4[3] as u32, i));
        assert(s[off.op_bits + i] == bit(x, i));
        assert(s[off.new_bits + i] == bit(y, i));
        assert(s[off.q + i] == quotient(x, in4, i));
    }
    assert forall|j: int| off.q <= j < off.q + 32 implies crate::air::is_ternary(
        (#[trigger] s[j]) as int,
    ) by {
        lemma_quotient(x, in4, j - off.q);
        let q = s[j] as int;
        assert(q * (q - 1) * (q - 2) == 0) by (nonlinear_arith)
            requires
                q == 0 || q == 1 || q == 2,
        ;
    }
}

/// A column belongs to the block.
pub open spec fn in_block(off: ParityOffsets, c: int) -> bool {
    ||| off.in_cells <= c < off.in_cells + 4
    ||| off.in_bits <= c < off.in_bits + 128
    ||| off.op_bits <= c < off.op_bits + 32
    ||| c == off.new
    ||| off.new_bits <= c < off.new_bits + 32
    ||| off.q <= c < off.q + 32
}

/// The block's cells are canonical.
proof fn lemma_filled_canonical(off: ParityOffsets, s: Seq<u64>, x: u32, in4: Seq<i32>)
    requires
        in4.len() == 4,
        parity_filled(off, s, x, in4),
    ensures
        forall|c: int| in_block(off, c) ==> #[trigger] s[c] < p(),
{
    assert forall|c: int| in_block(off, c) implies #[trigger] s[c] < p() by {
        if off.in_cells <= c < off.in_cells + 4 {
            let k = c - off.in_cells;
            lemma_enc_feq(in4[k] as int);
            assert(s[off.in_cells + k] == enc(in4[k] as int));
        } else if off.in_bits <= c < off.in_bits + 128 {
            let k = (c - off.in_bits) / 32;
            assert(has_bits(s, off.in_bits + k * 32, in4[k] as u32));
            lemma_bit_bound(in4[k] as u32, c - (off.in_bits + k * 32));
        } else if off.op_bits <= c < off.op_bits + 32 {
            lemma_bit_bound(x, c - off.op_bits);
        } else if off.new_bits <= c < off.new_bits + 32 {
            lemma_bit_bound(x ^ xor_fold(in4), c - off.new_bits);
        } else if off.q <= c < off.q + 32 {
            lemma_quotient(x, in4, c - off.q);
        }
    }
}

/// How many of five words have a bit set.
fn count_bits(in4: &[i32; 4], x: u32, i: usize) -> (n: u32)
    requires
        i < 32,
    ensures
        n == bit(x, i as int) + bit_count(in4@, i as int),
        n <= 5,
{
    let k: u32 = i as u32;
    let mut n: u32 = (x >> k) & 1;
    let mut c: usize = 0;
    proof {
        lemma_bit_bound(x, i as int);
        assert(in4@.take(0).len() == 0);
    }
    while c < 4
        invariant
            c <= 4,
            k == i,
            i < 32,
            n == bit(x, i as int) + bit_count(in4@.take(c as int), i as int),
            n <= 1 + c,
        decreases 4 - c,
    {
        proof {
            assert(in4@.take(c + 1).drop_last() =~= in4@.take(c as int));
            lemma_bit_bound(in4@[c as int] as u32, i as int);
        }
        let u: u32 = #[verifier::truncate] (in4[c] as u32);
        n = n + ((u >> k) & 1);
        c = c + 1;
    }
    assert(in4@.take(4) =~= in4@);
    n
}

/// Fills a parity block and returns the result.
pub fn fill_parity_block(row: &mut Vec<Val>, off: &ParityOffsets, in4: &[i32; 4], x: u32) -> (new:
    u32)
    requires
        off.ordered(old(row).len() as int),
    ensures
        new == x ^ xor_fold(in4@),
        final(row)@.len() == old(row)@.len(),
        parity_filled(*off, final(row)@, x, in4@),
        forall|c: int|
            0 <= c < old(row)@.len() && !in_block(*off, c) ==> final(row)@[c] == old(row)@[c],
        canonical(old(row)@) ==> canonical(final(row)@),
{
    let mut xin: u32 = 0;
    let mut c: usize = 0;
    while c < 4
        invariant
            c <= 4,
            off.ordered(row.len() as int),
            row@.len() == old(row)@.len(),
            xin == xor_fold(in4@.take(c as int)),
            forall|k: int| 0 <= k < c ==> row@[off.in_cells + k] == enc(#[trigger] in4@[k] as int),
            forall|k: int|
                0 <= k < c ==> has_bits(row@, off.in_bits + k * 32, #[trigger] in4@[k] as u32),
            forall|j: int|
                0 <= j < old(row)@.len() && !in_block(*off, j) ==> row@[j] == old(row)@[j],
        decreases 4 - c,
    {
        let ghost before = row@;
        let u: u32 = #[verifier::truncate] (in4[c] as u32);
        row[off.in_cells + c] = val_of_i32(in4[c]);
        let ghost mid = row@;
        set_bits(row, off.in_bits + c * 32, u);
        proof {
            crate::bits::lemma_xor_fold_step(in4@, c as int);
            assert forall|k: int| 0 <= k < c + 1 implies row@[off.in_cells + k] == enc(
                #[trigger] in4@[k] as int,
            ) by {
                assert(row@[off.in_cells + k] == mid[off.in_cells + k]);
            }
            assert forall|k: int| 0 <= k < c + 1 implies has_bits(
                row@,
                off.in_bits + k * 32,
                #[trigger] in4@[k] as u32,
            ) by {
                if k < c {
                    assert(has_bits(before, off.in_bits + k * 32, in4@[k] as u32));
                    assert forall|j: int|
                        off.in_bits + k * 32 <= j < off.in_bits + k * 32 + 32 implies (
                    #[trigger] row@[j]) == bit(in4@[k] as u32, j - (off.in_bits + k * 32)) by {
                        assert(mid[j] == before[j]);
                    }
                }
            }
        }
        xin = xin ^ u;
        c = c + 1;
    }
    assert(in4@.take(4) =~= in4@);
    let ghost r0 = row@;
    set_bits(row, off.op_bits, x);
    let new: u32 = x ^ xin;
    let ghost r1 = row@;
    row[off.new] = val_of_u32(new);
    let ghost r2 = row@;
    set_bits(row, off.new_bits, new);
    let ghost r3 = row@;
    let mut i: usize = 0;
    while i < 32
        invariant
            i <= 32,
            off.ordered(row.len() as int),
            row@.len() == r3.len(),
            new == x ^ xor_fold(in4@),
            forall|j: int| 0 <= j < r3.len() && !(off.q <= j < off.q + i) ==> row@[j] == r3[j],
            forall|j: int|
                off.q <= j < off.q + i ==> #[trigger] row@[j] == quotient(x, in4@, j - off.q),
        decreases 32 - i,
    {
        proof {
            lemma_quotient(x, in4@, i as int);
            lemma_bit_bound(new, i as int);
        }
        let sum: u32 = count_bits(in4, x, i);
        let b: u32 = (new >> (i as u32)) & 1;
        let q: u32 = (sum - b) / 2;
        row[off.q + i] = val_of_u32(q);
        i = i + 1;
    }
    proof {
        let s = row@;
        assert forall|j: int| 0 <= j < off.op_bits implies #[trigger] s[j] == r0[j] by {
            assert(s[j] == r3[j]);
            assert(r3[j] == r2[j]);
            assert(r2[j] == r1[j]);
            assert(r1[j] == r0[j]);
        }
        assert forall|k: int| 0 <= k < 4 implies s[off.in_cells + k] == enc(
            #[trigger] in4@[k] as int,
        ) by {
            assert(r0[off.in_cells + k] == enc(in4@[k] as int));
        }
        assert forall|k: int| 0 <= k < 4 implies has_bits(
            s,
            off.in_bits + k * 32,
            #[trigger] in4@[k] as u32,
        ) by {
            assert(has_bits(r0, off.in_bits + k * 32, in4@[k] as u32));
            assert forall|j: int|
                off.in_bits + k * 32 <= j < off.in_bits + k * 32 + 32 implies (#[trigger] s[j])
                == bit(in4@[k] as u32, j - (off.in_bits + k * 32)) by {
                assert(s[j] == r0[j]);
            }
        }
        assert(has_bits(s, off.op_bits as int, x)) by {
            assert forall|j: int| off.op_bits <= j < off.op_bits + 32 implies (#[trigger] s[j])
                == bit(x, j - off.op_bits) by {
                assert(s[j] == r3[j]);
                assert(r3[j] == r2[j]);
                assert(r2[j] == r1[j]);
            }
        }
        assert(s[off.new as int] == r3[off.new as int]);
        assert(r3[off.new as int] == r2[off.new as int]);
        assert(has_bits(s, off.new_bits as int, new)) by {
            assert forall|j: int| off.new_bits <= j < off.new_bits + 32 implies (#[trigger] s[j])
                == bit(new, j - off.new_bits) by {
                assert(s[j] == r3[j]);
            }
        }
        assert forall|j: int| 0 <= j < s.len() && !in_block(*off, j) implies #[trigger] s[j]
            == old(row)@[j] by {
            assert(s[j] == r3[j]);
            assert(r3[j] == r2[j]);
            assert(r2[j] == r1[j]);
            assert(r1[j] == r0[j]);
        }
        assert(parity_filled(*off, s, x, in4@));
        lemma_filled_canonical(*off, s, x, in4@);
        if canonical(old(row)@) {
            assert forall|j: int| 0 <= j < s.len() implies (#[trigger] s[j]) < p() by {
                if !in_block(*off, j) {
                    assert(s[j] == old(row)@[j]);
                }
            }
        }
    }
    new
}

/// Four words folded into another.
pub proof fn lemma_xor_fold_four(x: u32, in4: Seq<i32>)
    requires
        in4.len() == 4,
    ensures
        x ^ xor_fold(in4) == x ^ (in4[0] as u32) ^ (in4[1] as u32) ^ (in4[2] as u32) ^ (
        in4[3] as u32),
{
    let a = in4[0] as u32;
    let b = in4[1] as u32;
    let c = in4[2] as u32;
    let d = in4[3] as u32;
    assert(in4.take(0) =~= Seq::empty());
    assert(in4.take(4) =~= in4);
    crate::bits::lemma_xor_fold_step(in4, 0);
    crate::bits::lemma_xor_fold_step(in4, 1);
    crate::bits::lemma_xor_fold_step(in4, 2);
    crate::bits::lemma_xor_fold_step(in4, 3);
    assert(xor_fold(in4) == 0 ^ a ^ b ^ c ^ d);
    assert(x ^ (0 ^ a ^ b ^ c ^ d) == x ^ a ^ b ^ c ^ d) by (bit_vector);
}

/// Small cells pass the ternary check.
pub proof fn lemma_small_is_ternary(s: Seq<u64>, start: int, n: int)
    requires
        forall|j: int| start <= j < start + n ==> (#[trigger] s[j]) <= 2,
    ensures
        crate::air::all_ternary(s, start, n),
{
    assert forall|j: int| start <= j < start + n implies crate::air::is_ternary(
        (#[trigger] s[j]) as int,
    ) by {
        let x = s[j] as int;
        assert(x * (x - 1) * (x - 2) == 0) by (nonlinear_arith)
            requires
                x == 0 || x == 1 || x == 2,
        ;
    }
}

/// Rows that agree on the columns of a block agree on its rules.
pub proof fn lemma_same_block(
    off: ParityOffsets,
    gate: int,
    operand: int,
    s: Seq<u64>,
    t: Seq<u64>,
    end: int,
)
    requires
        off.within(end),
        forall|j: int| j < end ==> #[trigger] s[j] == t[j],
        parity_block(off, gate, operand, s),
    ensures
        parity_block(off, gate, operand, t),
{
    assert forall|start: int, n: int|
        start + n <= end && all_bool_when(gate, s, start, n) implies #[trigger] all_bool_when(
        gate,
        t,
        start,
        n,
    ) by {
        assert forall|j: int| start <= j < start + n implies is_zero(
            gate * (((#[trigger] t[j]) as int) * (t[j] - 1)),
        ) by {
            assert(s[j] == t[j]);
        }
    }
    assert forall|c: int| 0 <= c < 4 implies #[trigger] input_rule(off, gate, t, c) by {
        assert(input_rule(off, gate, s, c));
        lemma_same_polyval(s, t, off.in_bits + c * 32, 32);
    }
    lemma_same_polyval(s, t, off.op_bits as int, 32);
    lemma_same_polyval(s, t, off.new_bits as int, 32);
    assert forall|i: int| 0 <= i < 32 implies #[trigger] parity_rule(off, gate, t, i) by {
        assert(parity_rule(off, gate, s, i));
    }
}

/// Equal cells hold equal values.
proof fn lemma_same_polyval(s: Seq<u64>, t: Seq<u64>, at: int, n: nat)
    requires
        forall|j: int| at <= j < at + n ==> #[trigger] s[j] == t[j],
    ensures
        polyval(s, at, n, 2) == polyval(t, at, n, 2),
    decreases n,
{
    if n > 0 {
        lemma_same_polyval(s, t, at, (n - 1) as nat);
        assert(s[at + n - 1] == t[at + n - 1]);
    }
}

} // verus!
