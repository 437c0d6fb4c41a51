//! The input chip: ties packed words to the bytes they are made of.
//!
//! Each row carries 64 matrix bytes and 64 noise bytes. Eight words pack the
//! noise in base 129, and sixteen words pack the sum of matrix and noise in
//! base 256:
//!
//! ```text
//!   NOISE_PACKED_PREP[s] == polyval(NOISE_UNPACK[8s..8s + 8], 129)
//!   NOISED_PACKED[i]     == polyval(MAT_UNPACK[4i..4i + 4], 256)
//!                         + polyval(NOISE_UNPACK[4i..4i + 4], 256)
//! ```

use vstd::arithmetic::power::*;
use vstd::prelude::*;

use crate::air::{polyval, polyval_expr, ConstraintBuilder, Expr, Window};
use crate::composite_layout::{
    BYTES_PER_GOLDILOCKS, MAT_UNPACK_START, NOISED_PACKED_LEN, NOISED_PACKED_START,
    NOISE_PACKED_PREP, NOISE_PACKED_PREP_LEN, NOISE_UNPACK_START, TOTAL_TRACE_WIDTH,
};
use crate::field::{
    canonical, enc, is_zero, lemma_enc_feq, lemma_enc_i32, lemma_enc_small, lemma_feq_canonical,
    lemma_zero_add, lemma_zero_mul, lemma_zero_small, p, val_from_i64, Val,
};
use crate::matrix::val_of_i32;

verus! {

/// Base of the noise packing: noise bytes take 129 values.
pub const NOISE_PACKING_BASE: i32 = 129;

/// Base of the matrix packing.
pub const MATRIX_PACKING_BASE: i32 = 256;

/// Bytes of one noise word.
const SUBSLICE: usize = 8;

/// The input chip.
#[derive(Debug, Default, Clone, Copy)]
pub struct InputChip;

/// A noise word packs its eight bytes.
pub open spec fn noise_rule(s: Seq<u64>, k: int) -> bool {
    is_zero(s[NOISE_PACKED_PREP + k] - polyval(s, NOISE_UNPACK_START + k * 8, 8, 129))
}

/// A noised word packs the sum of its four matrix and noise bytes.
pub open spec fn noised_rule(s: Seq<u64>, i: int) -> bool {
    is_zero(
        s[NOISED_PACKED_START + i] - (polyval(s, MAT_UNPACK_START + i * 4, 4, 256) + polyval(
            s,
            NOISE_UNPACK_START + i * 4,
            4,
            256,
        )),
    )
}

/// The constraints of the input chip at one window.
pub open spec fn input_rules(w: Window) -> bool {
    &&& forall|k: int| 0 <= k < 8 ==> #[trigger] noise_rule(w.cur, k)
    &&& forall|i: int| 0 <= i < 16 ==> #[trigger] noised_rule(w.cur, i)
}

/// Bytes as signed digits in a base, least significant first.
pub open spec fn byte_polyval(bytes: Seq<i8>, start: int, n: nat, base: int) -> int
    decreases n,
{
    if n == 0 {
        0
    } else {
        byte_polyval(bytes, start, (n - 1) as nat, base) + bytes[start + n - 1] * pow(
            base,
            (n - 1) as nat,
        )
    }
}

/// A digit string of bytes is below the next power of its base.
proof fn lemma_byte_polyval_bound(bytes: Seq<i8>, start: int, n: nat, base: int)
    requires
        base >= 129,
    ensures
        -pow(base, n) < byte_polyval(bytes, start, n, base) < pow(base, n),
        pow(base, n) >= 1,
    decreases n,
{
    lemma_pow0(base);
    if n > 0 {
        lemma_byte_polyval_bound(bytes, start, (n - 1) as nat, base);
        let q = pow(base, (n - 1) as nat);
        let d = bytes[start + n - 1] as int;
        lemma_pow_adds(base, (n - 1) as nat, 1);
        lemma_pow1(base);
        assert(-128 * q <= d * q <= 128 * q) by (nonlinear_arith)
            requires
                -128 <= d <= 127,
                q >= 1,
        ;
        assert(q * base >= 129 * q) by (nonlinear_arith)
            requires
                base >= 129,
                q >= 1,
        ;
    }
}

/// A power squared.
proof fn lemma_pow_square(base: int, e: nat, x: int)
    requires
        pow(base, e) == x,
    ensures
        pow(base, 2 * e) == x * x,
{
    lemma_pow_adds(base, e, e);
}

/// The powers the packings use.
proof fn lemma_packing_powers()
    ensures
        pow(129, 8) == 76686282021340161,
        pow(256, 4) == 4294967296,
{
    lemma_pow1(129);
    lemma_pow_square(129, 1, 129);
    lemma_pow_square(129, 2, 16641);
    lemma_pow_square(129, 4, 276922881);
    lemma_pow1(256);
    lemma_pow_square(256, 1, 256);
    lemma_pow_square(256, 2, 65536);
}

/// Bytes as signed digits in a base.
fn pack_bytes(bytes: &[i8; 8], start: usize, n: usize, base: i64) -> (r: i64)
    requires
        start + n <= 8,
        base >= 129,
        pow(base as int, n as nat) <= 76686282021340161,
    ensures
        r == byte_polyval(bytes@, start as int, n as nat, base as int),
        -0x4000_0000_0000_0000 < r < 0x4000_0000_0000_0000,
{
    let mut packed: i64 = 0;
    let mut weight: i64 = 1;
    let mut i: usize = 0;
    proof {
        lemma_pow0(base as int);
    }
    while i < n
        invariant
            i <= n,
            start + n <= 8,
            base >= 129,
            pow(base as int, n as nat) <= 76686282021340161,
            weight == pow(base as int, i as nat),
            packed == byte_polyval(bytes@, start as int, i as nat, base as int),
        decreases n - i,
    {
        proof {
            lemma_pow_increases(base as nat, (i + 1) as nat, n as nat);
            lemma_pow_adds(base as int, i as nat, 1);
            lemma_pow1(base as int);
            lemma_byte_polyval_bound(bytes@, start as int, i as nat, base as int);
            lemma_byte_polyval_bound(bytes@, start as int, (i + 1) as nat, base as int);
            let d = bytes@[start + i] as int;
            assert(-128 * weight <= d * weight <= 128 * weight) by (nonlinear_arith)
                requires
                    -128 <= d <= 127,
                    weight >= 1,
            ;
            assert(129 * weight <= weight * base) by (nonlinear_arith)
                requires
                    base >= 129,
                    weight >= 1,
            ;
        }
        packed = packed + (bytes[start + i] as i64) * weight;
        weight = weight * base;
        i = i + 1;
    }
    proof {
        lemma_byte_polyval_bound(bytes@, start as int, n as nat, base as int);
    }
    packed
}

impl InputChip {
    /// The chip.
    pub fn new() -> (r: Self)
        ensures
            r == InputChip,
    {
        InputChip
    }

    /// Emits the constraints. They hold on every row, without a selector.
    pub fn eval(&self, builder: &mut ConstraintBuilder)
        ensures
            forall|w: Window| #[trigger]
                final(builder).holds(w) <==> (old(builder).holds(w) && input_rules(w)),
            forall|d: nat|
                d >= 1 && old(builder).degree_at_most(d) ==> #[trigger] final(builder).degree_at_most(d),
    {
        proof {
            lemma_packing_powers();
        }
        let ghost b0 = *builder;
        let mut k: usize = 0;
        while k < NOISE_PACKED_PREP_LEN
            invariant
                k <= 8,
                pow(129, 8) == 76686282021340161,
                forall|w: Window| #[trigger]
                    builder.holds(w) <==> (b0.holds(w) && (forall|i: int|
                        0 <= i < k ==> #[trigger] noise_rule(w.cur, i))),
                forall|d: nat| d >= 1 && b0.degree_at_most(d) ==> #[trigger] builder.degree_at_most(d),
            decreases 8 - k,
        {
            let ghost before = *builder;
            let packed = polyval_expr(
                NOISE_UNPACK_START + k * SUBSLICE,
                SUBSLICE,
                NOISE_PACKING_BASE as u64,
            );
            builder.assert_eq(Expr::cur(NOISE_PACKED_PREP + k), packed);
            k = k + 1;
            assert forall|w: Window| #[trigger]
                builder.holds(w) <==> (b0.holds(w) && (forall|i: int|
                    0 <= i < k ==> #[trigger] noise_rule(w.cur, i))) by {
                assert(builder.holds(w) <==> (before.holds(w) && noise_rule(w.cur, k - 1)));
            }
        }
        let ghost b1 = *builder;
        let mut i: usize = 0;
        while i < NOISED_PACKED_LEN
            invariant
                i <= 16,
                pow(256, 4) == 4294967296,
                forall|w: Window| #[trigger]
                    builder.holds(w) <==> (b1.holds(w) && (forall|k: int|
                        0 <= k < i ==> #[trigger] noised_rule(w.cur, k))),
                forall|d: nat| d >= 1 && b1.degree_at_most(d) ==> #[trigger] builder.degree_at_most(d),
            decreases 16 - i,
        {
            let ghost before = *builder;
            let mat = polyval_expr(
                MAT_UNPACK_START + i * BYTES_PER_GOLDILOCKS,
                BYTES_PER_GOLDILOCKS,
                MATRIX_PACKING_BASE as u64,
            );
            let noise = polyval_expr(
                NOISE_UNPACK_START + i * BYTES_PER_GOLDILOCKS,
                BYTES_PER_GOLDILOCKS,
                MATRIX_PACKING_BASE as u64,
            );
            let sum = mat.plus(noise);
            builder.assert_eq(Expr::cur(NOISED_PACKED_START + i), sum);
            i = i + 1;
            assert forall|w: Window| #[trigger]
                builder.holds(w) <==> (b1.holds(w) && (forall|k: int|
                    0 <= k < i ==> #[trigger] noised_rule(w.cur, k))) by {
                assert(sum.value(w) == mat.value(w) + noise.value(w));
                assert(builder.holds(w) <==> (before.holds(w) && noised_rule(w.cur, i - 1)));
            }
        }
    }

    /// Writes the cells of one 8-byte slice: the matrix and noise bytes, the
    /// noise word and the two noised words.
    pub fn fill_row(&self, mat_bytes: &[i8; 8], noise_bytes: &[i8; 8], row: &mut [Val])
        requires
            old(row)@.len() >= NOISED_PACKED_START + 2,
        ensures
            slice_filled(final(row)@, mat_bytes@, noise_bytes@),
            final(row)@.len() == old(row)@.len(),
            forall|j: int|
                0 <= j < old(row)@.len() && !in_slice(j) ==> #[trigger] final(row)@[j] == old(
                    row,
                )@[j],
    {
        proof {
            lemma_packing_powers();
        }
        let mut i: usize = 0;
        while i < 8
            invariant
                i <= 8,
                row@.len() == old(row)@.len() >= NOISED_PACKED_START + 2,
                forall|k: int|
                    0 <= k < i ==> row@[MAT_UNPACK_START + k] == enc(
                        #[trigger] mat_bytes@[k] as int,
                    ),
                forall|j: int|
                    0 <= j < old(row)@.len() && !in_slice(j) ==> #[trigger] row@[j] == old(row)@[j],
            decreases 8 - i,
        {
            row[MAT_UNPACK_START + i] = val_of_i32(mat_bytes[i] as i32);
            i = i + 1;
        }
        let mut j: usize = 0;
        while j < 8
            invariant
                j <= 8,
                row@.len() == old(row)@.len() >= NOISED_PACKED_START + 2,
                forall|k: int|
                    0 <= k < 8 ==> row@[MAT_UNPACK_START + k] == enc(
                        #[trigger] mat_bytes@[k] as int,
                    ),
                forall|k: int|
                    0 <= k < j ==> row@[NOISE_UNPACK_START + k] == enc(
                        #[trigger] noise_bytes@[k] as int,
                    ),
                forall|c: int|
                    0 <= c < old(row)@.len() && !in_slice(c) ==> #[trigger] row@[c] == old(row)@[c],
            decreases 8 - j,
        {
            row[NOISE_UNPACK_START + j] = val_of_i32(noise_bytes[j] as i32);
            j = j + 1;
        }
        let packed: i64 = pack_bytes(noise_bytes, 0, 8, NOISE_PACKING_BASE as i64);
        row[NOISE_PACKED_PREP] = val_from_i64(packed);
        let mut w: usize = 0;
        while w < 2
            invariant
                w <= 2,
                pow(256, 4) == 4294967296,
                row@.len() == old(row)@.len() >= NOISED_PACKED_START + 2,
                forall|k: int|
                    0 <= k < 8 ==> row@[MAT_UNPACK_START + k] == enc(
                        #[trigger] mat_bytes@[k] as int,
                    ),
                forall|k: int|
                    0 <= k < 8 ==> row@[NOISE_UNPACK_START + k] == enc(
                        #[trigger] noise_bytes@[k] as int,
                    ),
                row@[NOISE_PACKED_PREP as int] == enc(byte_polyval(noise_bytes@, 0, 8, 129)),
                forall|k: int| 0 <= k < w ==> #[trigger] noised_word(row@, mat_bytes@, noise_bytes@, k),
                forall|c: int|
                    0 <= c < old(row)@.len() && !in_slice(c) ==> #[trigger] row@[c] == old(row)@[c],
            decreases 2 - w,
        {
            let ghost before = row@;
            let mat: i64 = pack_bytes(
                mat_bytes,
                w * BYTES_PER_GOLDILOCKS,
                BYTES_PER_GOLDILOCKS,
                MATRIX_PACKING_BASE as i64,
            );
            let noise: i64 = pack_bytes(
                noise_bytes,
                w * BYTES_PER_GOLDILOCKS,
                BYTES_PER_GOLDILOCKS,
                MATRIX_PACKING_BASE as i64,
            );
            row[NOISED_PACKED_START + w] = val_from_i64(mat + noise);
            proof {
                assert forall|k: int| 0 <= k < w + 1 implies #[trigger] noised_word(
                    row@,
                    mat_bytes@,
                    noise_bytes@,
                    k,
                ) by {
                    if k < w {
                        assert(noised_word(before, mat_bytes@, noise_bytes@, k));
                    }
                }
            }
            w = w + 1;
        }
    }
}

/// A column that [`InputChip::fill_row`] writes.
pub open spec fn in_slice(c: int) -> bool {
    ||| MAT_UNPACK_START <= c < MAT_UNPACK_START + 8
    ||| NOISE_UNPACK_START <= c < NOISE_UNPACK_START + 8
    ||| c == NOISE_PACKED_PREP
    ||| NOISED_PACKED_START <= c < NOISED_PACKED_START + 2
}

/// A noised word packs the sum of its matrix and noise bytes.
pub open spec fn noised_word(row: Seq<u64>, mat: Seq<i8>, noise: Seq<i8>, k: int) -> bool {
    row[NOISED_PACKED_START + k] == enc(
        byte_polyval(mat, k * 4, 4, 256) + byte_polyval(noise, k * 4, 4, 256),
    )
}

/// The first 8-byte slice of a row holds matrix and noise bytes and the words
/// they pack to.
pub open spec fn slice_filled(row: Seq<u64>, mat: Seq<i8>, noise: Seq<i8>) -> bool {
    &&& forall|k: int| 0 <= k < 8 ==> row[MAT_UNPACK_START + k] == enc(#[trigger] mat[k] as int)
    &&& forall|k: int| 0 <= k < 8 ==> row[NOISE_UNPACK_START + k] == enc(#[trigger] noise[k] as int)
    &&& row[NOISE_PACKED_PREP as int] == enc(byte_polyval(noise, 0, 8, 129))
    &&& forall|k: int| 0 <= k < 2 ==> #[trigger] noised_word(row, mat, noise, k)
}

/// Cells that hold bytes evaluate to the field element of the bytes' value.
pub proof fn lemma_polyval_bytes(
    s: Seq<u64>,
    at: int,
    bytes: Seq<i8>,
    start: int,
    n: nat,
    base: int,
)
    requires
        forall|k: int| start <= k < start + n ==> s[at + (k - start)] == enc(#[trigger] bytes[k] as int),
    ensures
        is_zero(polyval(s, at, n, base) - byte_polyval(bytes, start, n, base)),
    decreases n,
{
    if n > 0 {
        lemma_polyval_bytes(s, at, bytes, start, (n - 1) as nat, base);
        let k = start + n - 1;
        let q = pow(base, (n - 1) as nat);
        assert(s[at + (k - start)] == enc(bytes[k] as int));
        lemma_enc_feq(bytes[k] as int);
        let d = enc(bytes[k] as int) - bytes[k];
        lemma_zero_mul(d, q);
        assert(s[at + n - 1] * q - bytes[k] * q == d * q) by (nonlinear_arith)
            requires
                d == s[at + n - 1] - bytes[k],
        ;
        lemma_zero_add(
            polyval(s, at, (n - 1) as nat, base) - byte_polyval(
                bytes,
                start,
                (n - 1) as nat,
                base,
            ),
            d * q,
        );
    } else {
        lemma_enc_small(0);
    }
}

/// Cells of zeros evaluate to zero.
proof fn lemma_polyval_zero(s: Seq<u64>, at: int, n: nat, base: int)
    requires
        forall|j: int| at <= j < at + n ==> #[trigger] s[j] == 0,
    ensures
        polyval(s, at, n, base) == 0,
    decreases n,
{
    if n > 0 {
        lemma_polyval_zero(s, at, (n - 1) as nat, base);
        assert(s[at + n - 1] == 0);
        assert(0 * pow(base, (n - 1) as nat) == 0);
    }
}

/// A row of zeros with its first slice filled meets the rules.
pub proof fn filled_row_meets_rules(w: Window, mat: Seq<i8>, noise: Seq<i8>)
    requires
        mat.len() == 8,
        noise.len() == 8,
        slice_filled(w.cur, mat, noise),
        forall|j: int| 0 <= j < TOTAL_TRACE_WIDTH && !in_slice(j) ==> #[trigger] w.cur[j] == 0,
    ensures
        input_rules(w),
{
    let s = w.cur;
    lemma_enc_small(0);
    assert forall|k: int| 0 <= k < 8 implies #[trigger] noise_rule(s, k) by {
        let at = NOISE_UNPACK_START + k * 8;
        if k == 0 {
            let v = byte_polyval(noise, 0, 8, 129);
            lemma_polyval_bytes(s, NOISE_UNPACK_START as int, noise, 0, 8, 129);
            lemma_enc_feq(v);
            lemma_zero_add(enc(v) - v, polyval(s, at, 8, 129) - v);
        } else {
            lemma_polyval_zero(s, at, 8, 129);
            assert(s[NOISE_PACKED_PREP + k] == 0);
        }
    }
    assert forall|i: int| 0 <= i < 16 implies #[trigger] noised_rule(s, i) by {
        let at_m = MAT_UNPACK_START + i * 4;
        let at_n = NOISE_UNPACK_START + i * 4;
        if i < 2 {
            assert(noised_word(s, mat, noise, i));
            let a = byte_polyval(mat, i * 4, 4, 256);
            let b = byte_polyval(noise, i * 4, 4, 256);
            assert forall|k: int| i * 4 <= k < i * 4 + 4 implies s[at_m + (k - i * 4)] == enc(
                #[trigger] mat[k] as int,
            ) by {
                assert(s[MAT_UNPACK_START + k] == enc(mat[k] as int));
            }
            assert forall|k: int| i * 4 <= k < i * 4 + 4 implies s[at_n + (k - i * 4)] == enc(
                #[trigger] noise[k] as int,
            ) by {
                assert(s[NOISE_UNPACK_START + k] == enc(noise[k] as int));
            }
            lemma_polyval_bytes(s, at_m, mat, i * 4, 4, 256);
            lemma_polyval_bytes(s, at_n, noise, i * 4, 4, 256);
            lemma_enc_feq(a + b);
            lemma_zero_add(polyval(s, at_m, 4, 256) - a, polyval(s, at_n, 4, 256) - b);
            lemma_zero_add(
                enc(a + b) - (a + b),
                (polyval(s, at_m, 4, 256) - a) + (polyval(s, at_n, 4, 256) - b),
            );
        } else {
            lemma_polyval_zero(s, at_m, 4, 256);
            lemma_polyval_zero(s, at_n, 4, 256);
            assert(s[NOISED_PACKED_START + i] == 0);
        }
    }
}

/// Two digit strings whose digits differ by less than the base differ by less
/// than the next power.
proof fn lemma_digit_diff_bound(a: Seq<i8>, b: Seq<i8>, n: nat, base: int)
    requires
        base >= 2,
        forall|k: int| 0 <= k < n ==> -base < #[trigger] a[k] - b[k] < base,
    ensures
        -pow(base, n) < byte_polyval(a, 0, n, base) - byte_polyval(b, 0, n, base) < pow(base, n),
        pow(base, n) >= 1,
    decreases n,
{
    lemma_pow0(base);
    if n > 0 {
        lemma_digit_diff_bound(a, b, (n - 1) as nat, base);
        let q = pow(base, (n - 1) as nat);
        let x = a[n - 1] as int;
        let y = b[n - 1] as int;
        lemma_pow_adds(base, (n - 1) as nat, 1);
        lemma_pow1(base);
        assert(-base < a[n - 1] - b[n - 1] < base);
        assert(-(base - 1) * q <= x * q - y * q <= (base - 1) * q) by (nonlinear_arith)
            requires
                -base < x - y < base,
                q >= 1,
        ;
        assert((base - 1) * q == q * base - q && -(base - 1) * q == q - q * base)
            by (nonlinear_arith);
        assert(q * base >= 1) by (nonlinear_arith)
            requires
                base >= 2,
                q >= 1,
        ;
    }
}

/// Digit strings with equal values have equal digits, where digits differ by
/// less than the base.
proof fn lemma_digits_unique(a: Seq<i8>, b: Seq<i8>, n: nat, base: int)
    requires
        base >= 2,
        forall|k: int| 0 <= k < n ==> -base < #[trigger] a[k] - b[k] < base,
        byte_polyval(a, 0, n, base) == byte_polyval(b, 0, n, base),
    ensures
        forall|k: int| 0 <= k < n ==> #[trigger] a[k] == b[k],
    decreases n,
{
    if n > 0 {
        lemma_digit_diff_bound(a, b, (n - 1) as nat, base);
        let q = pow(base, (n - 1) as nat);
        let x = a[n - 1] as int;
        let y = b[n - 1] as int;
        let rest = byte_polyval(a, 0, (n - 1) as nat, base) - byte_polyval(
            b,
            0,
            (n - 1) as nat,
            base,
        );
        assert(x == y) by (nonlinear_arith)
            requires
                rest + x * q - y * q == 0,
                -q < rest < q,
                q >= 1,
        ;
        lemma_digits_unique(a, b, (n - 1) as nat, base);
    }
}

/// Two rows that meet the rules and agree on the noise bytes and a noised word
/// agree on the matrix bytes behind the word: matrix bytes cannot change while
/// the word stays.
pub proof fn noised_word_fixes_matrix_bytes(
    s: Seq<u64>,
    t: Seq<u64>,
    a: Seq<i8>,
    b: Seq<i8>,
    i: int,
)
    requires
        0 <= i < 16,
        noised_rule(s, i),
        noised_rule(t, i),
        forall|k: int|
            0 <= k < 4 ==> s[MAT_UNPACK_START + i * 4 + k] == enc(#[trigger] a[k] as int),
        forall|k: int|
            0 <= k < 4 ==> t[MAT_UNPACK_START + i * 4 + k] == enc(#[trigger] b[k] as int),
        forall|j: int|
            NOISE_UNPACK_START <= j < NOISE_UNPACK_START + 64 ==> #[trigger] s[j] == t[j],
        s[NOISED_PACKED_START + i] == t[NOISED_PACKED_START + i],
    ensures
        forall|k: int| 0 <= k < 4 ==> #[trigger] a[k] == b[k],
{
    let at = MAT_UNPACK_START + i * 4;
    lemma_packing_powers();
    lemma_polyval_bytes(s, at, a, 0, 4, 256);
    lemma_polyval_bytes(t, at, b, 0, 4, 256);
    lemma_polyval_same(s, t, NOISE_UNPACK_START + i * 4, 4, 256);
    let x = byte_polyval(a, 0, 4, 256);
    let y = byte_polyval(b, 0, 4, 256);
    let n = polyval(s, NOISE_UNPACK_START + i * 4, 4, 256);
    let word = s[NOISED_PACKED_START + i] as int;
    let px = polyval(s, at, 4, 256);
    let py = polyval(t, at, 4, 256);
    lemma_zero_add(word - (py + n), word - (px + n));
    lemma_zero_add((word - (py + n)) - (word - (px + n)), px - x);
    lemma_zero_add(((word - (py + n)) - (word - (px + n))) - (px - x), py - y);
    assert forall|k: int| 0 <= k < 4 implies -256 < #[trigger] a[k] - b[k] < 256 by {}
    lemma_digit_diff_bound(a, b, 4, 256);
    lemma_zero_small(x - y);
    lemma_digits_unique(a, b, 4, 256);
}

/// Two rows that meet the rules and agree on a noise word agree on the noise
/// bytes behind it, where these lie in `-64..=64`.
pub proof fn noise_word_fixes_noise_bytes(
    s: Seq<u64>,
    t: Seq<u64>,
    a: Seq<i8>,
    b: Seq<i8>,
    i: int,
)
    requires
        0 <= i < 8,
        noise_rule(s, i),
        noise_rule(t, i),
        forall|k: int|
            0 <= k < 8 ==> s[NOISE_UNPACK_START + i * 8 + k] == enc(#[trigger] a[k] as int),
        forall|k: int|
            0 <= k < 8 ==> t[NOISE_UNPACK_START + i * 8 + k] == enc(#[trigger] b[k] as int),
        forall|k: int| 0 <= k < 8 ==> -64 <= #[trigger] a[k] <= 64,
        forall|k: int| 0 <= k < 8 ==> -64 <= #[trigger] b[k] <= 64,
        s[NOISE_PACKED_PREP + i] == t[NOISE_PACKED_PREP + i],
    ensures
        forall|k: int| 0 <= k < 8 ==> #[trigger] a[k] == b[k],
{
    let at = NOISE_UNPACK_START + i * 8;
    lemma_packing_powers();
    lemma_polyval_bytes(s, at, a, 0, 8, 129);
    lemma_polyval_bytes(t, at, b, 0, 8, 129);
    let x = byte_polyval(a, 0, 8, 129);
    let y = byte_polyval(b, 0, 8, 129);
    let word = s[NOISE_PACKED_PREP + i] as int;
    let px = polyval(s, at, 8, 129);
    let py = polyval(t, at, 8, 129);
    lemma_zero_add(word - py, word - px);
    lemma_zero_add((word - py) - (word - px), px - x);
    lemma_zero_add(((word - py) - (word - px)) - (px - x), py - y);
    assert forall|k: int| 0 <= k < 8 implies -129 < #[trigger] a[k] - b[k] < 129 by {
        assert(-64 <= b[k] <= 64);
    }
    lemma_digit_diff_bound(a, b, 8, 129);
    lemma_zero_small(x - y);
    lemma_digits_unique(a, b, 8, 129);
}

/// Equal cells evaluate equally.
proof fn lemma_polyval_same(s: Seq<u64>, t: Seq<u64>, at: int, n: nat, base: int)
    requires
        forall|j: int| at <= j < at + n ==> #[trigger] s[j] == t[j],
    ensures
        polyval(s, at, n, base) == polyval(t, at, n, base),
    decreases n,
{
    if n > 0 {
        lemma_polyval_same(s, t, at, (n - 1) as nat, base);
        assert(s[at + n - 1] == t[at + n - 1]);
    }
}

/// The weights of the digits.
proof fn lemma_digit_powers()
    ensures
        pow(256, 0) == 1,
        pow(256, 1) == 256,
        pow(256, 2) == 65536,
        pow(256, 3) == 16777216,
        pow(129, 0) == 1,
        pow(129, 1) == 129,
        pow(129, 2) == 16641,
        pow(129, 3) == 2146689,
        pow(129, 4) == 276922881,
        pow(129, 5) == 35723051649,
        pow(129, 6) == 4608273662721,
        pow(129, 7) == 594467302491009,
{
    lemma_pow0(256);
    lemma_pow0(129);
    lemma_pow1(256);
    lemma_pow1(129);
    lemma_pow_adds(256, 1, 1);
    lemma_pow_adds(256, 2, 1);
    lemma_pow_adds(129, 1, 1);
    lemma_pow_adds(129, 2, 1);
    lemma_pow_adds(129, 3, 1);
    lemma_pow_adds(129, 4, 1);
    lemma_pow_adds(129, 5, 1);
    lemma_pow_adds(129, 6, 1);
}

/// Four cells in base 256.
pub proof fn lemma_four_digits(s: Seq<u64>, at: int)
    ensures
        polyval(s, at, 4, 256) == s[at] + 256 * s[at + 1] + 65536 * s[at + 2] + 16777216 * s[at
            + 3],
{
    lemma_digit_powers();
    assert(polyval(s, at, 1, 256) == polyval(s, at, 0, 256) + s[at + 0] * pow(256, 0));
    assert(polyval(s, at, 2, 256) == polyval(s, at, 1, 256) + s[at + 1] * pow(256, 1));
    assert(polyval(s, at, 3, 256) == polyval(s, at, 2, 256) + s[at + 2] * pow(256, 2));
    assert(polyval(s, at, 4, 256) == polyval(s, at, 3, 256) + s[at + 3] * pow(256, 3));
}

/// Four bytes in base 256.
pub proof fn lemma_four_bytes(bytes: Seq<i8>, at: int)
    ensures
        byte_polyval(bytes, at, 4, 256) == bytes[at] + 256 * bytes[at + 1] + 65536 * bytes[at + 2]
            + 16777216 * bytes[at + 3],
{
    lemma_digit_powers();
    assert(byte_polyval(bytes, at, 1, 256) == byte_polyval(bytes, at, 0, 256) + bytes[at + 0] * pow(256, 0));
    assert(byte_polyval(bytes, at, 2, 256) == byte_polyval(bytes, at, 1, 256) + bytes[at + 1] * pow(256, 1));
    assert(byte_polyval(bytes, at, 3, 256) == byte_polyval(bytes, at, 2, 256) + bytes[at + 2] * pow(256, 2));
    assert(byte_polyval(bytes, at, 4, 256) == byte_polyval(bytes, at, 3, 256) + bytes[at + 3] * pow(256, 3));
}

/// Eight bytes in base 129.
pub proof fn lemma_eight_bytes(bytes: Seq<i8>, at: int)
    ensures
        byte_polyval(bytes, at, 8, 129) == bytes[at] + 129 * bytes[at + 1] + 16641 * bytes[at + 2]
            + 2146689 * bytes[at + 3] + 276922881 * bytes[at + 4] + 35723051649 * bytes[at + 5]
            + 4608273662721 * bytes[at + 6] + 594467302491009 * bytes[at + 7],
{
    lemma_digit_powers();
    assert(byte_polyval(bytes, at, 1, 129) == byte_polyval(bytes, at, 0, 129) + bytes[at + 0] * pow(129, 0));
    assert(byte_polyval(bytes, at, 2, 129) == byte_polyval(bytes, at, 1, 129) + bytes[at + 1] * pow(129, 1));
    assert(byte_polyval(bytes, at, 3, 129) == byte_polyval(bytes, at, 2, 129) + bytes[at + 2] * pow(129, 2));
    assert(byte_polyval(bytes, at, 4, 129) == byte_polyval(bytes, at, 3, 129) + bytes[at + 3] * pow(129, 3));
    assert(byte_polyval(bytes, at, 5, 129) == byte_polyval(bytes, at, 4, 129) + bytes[at + 4] * pow(129, 4));
    assert(byte_polyval(bytes, at, 6, 129) == byte_polyval(bytes, at, 5, 129) + bytes[at + 5] * pow(129, 5));
    assert(byte_polyval(bytes, at, 7, 129) == byte_polyval(bytes, at, 6, 129) + bytes[at + 6] * pow(129, 6));
    assert(byte_polyval(bytes, at, 8, 129) == byte_polyval(bytes, at, 7, 129) + bytes[at + 7] * pow(129, 7));
}

/// What the rules ask of a row that holds 64 matrix bytes and 64 noise bytes,
/// no more and no less: each of the sixteen noised words is the base-256 value
/// of its four matrix bytes plus that of its four noise bytes, and each of the
/// eight noise words is the base-129 value of its eight noise bytes.
pub proof fn noised_words_are_matrix_plus_noise(w: Window, mat: Seq<i8>, noise: Seq<i8>)
    requires
        canonical(w.cur),
        w.cur.len() == TOTAL_TRACE_WIDTH,
        forall|k: int| 0 <= k < 64 ==> w.cur[MAT_UNPACK_START + k] == enc(#[trigger] mat[k] as int),
        forall|k: int|
            0 <= k < 64 ==> w.cur[NOISE_UNPACK_START + k] == enc(#[trigger] noise[k] as int),
    ensures
        input_rules(w) <==> {
            &&& forall|i: int|
                0 <= i < 16 ==> #[trigger] w.cur[NOISED_PACKED_START + i] == enc(
                    (mat[4 * i] + noise[4 * i]) + 256 * (mat[4 * i + 1] + noise[4 * i + 1]) + 65536
                        * (mat[4 * i + 2] + noise[4 * i + 2]) + 16777216 * (mat[4 * i + 3]
                        + noise[4 * i + 3]),
                )
            &&& forall|k: int|
                0 <= k < 8 ==> #[trigger] w.cur[NOISE_PACKED_PREP + k] == enc(
                    noise[8 * k] + 129 * noise[8 * k + 1] + 16641 * noise[8 * k + 2] + 2146689
                        * noise[8 * k + 3] + 276922881 * noise[8 * k + 4] + 35723051649 * noise[8
                        * k + 5] + 4608273662721 * noise[8 * k + 6] + 594467302491009 * noise[8 * k
                        + 7],
                )
        },
{
    let s = w.cur;
    assert forall|i: int| 0 <= i < 16 implies (#[trigger] noised_rule(s, i) <==> s[
    NOISED_PACKED_START + i] == enc(
        (mat[4 * i] + noise[4 * i]) + 256 * (mat[4 * i + 1] + noise[4 * i + 1]) + 65536 * (mat[4 * i
            + 2] + noise[4 * i + 2]) + 16777216 * (mat[4 * i + 3] + noise[4 * i + 3]),
    )) by {
        let at_m = MAT_UNPACK_START + i * 4;
        let at_n = NOISE_UNPACK_START + i * 4;
        let a = byte_polyval(mat, i * 4, 4, 256);
        let b = byte_polyval(noise, i * 4, 4, 256);
        assert forall|k: int| i * 4 <= k < i * 4 + 4 implies s[at_m + (k - i * 4)] == enc(
            #[trigger] mat[k] as int,
        ) by {
            assert(s[MAT_UNPACK_START + k] == enc(mat[k] as int));
        }
        assert forall|k: int| i * 4 <= k < i * 4 + 4 implies s[at_n + (k - i * 4)] == enc(
            #[trigger] noise[k] as int,
        ) by {
            assert(s[NOISE_UNPACK_START + k] == enc(noise[k] as int));
        }
        lemma_polyval_bytes(s, at_m, mat, i * 4, 4, 256);
        lemma_polyval_bytes(s, at_n, noise, i * 4, 4, 256);
        lemma_four_bytes(mat, i * 4);
        lemma_four_bytes(noise, i * 4);
        lemma_zero_add(polyval(s, at_m, 4, 256) - a, polyval(s, at_n, 4, 256) - b);
        lemma_word_is_value(
            s[NOISED_PACKED_START + i] as int,
            polyval(s, at_m, 4, 256) + polyval(s, at_n, 4, 256),
            a + b,
        );
    }
    assert forall|k: int| 0 <= k < 8 implies (#[trigger] noise_rule(s, k) <==> s[NOISE_PACKED_PREP
        + k] == enc(
        noise[8 * k] + 129 * noise[8 * k + 1] + 16641 * noise[8 * k + 2] + 2146689 * noise[8 * k
            + 3] + 276922881 * noise[8 * k + 4] + 35723051649 * noise[8 * k + 5] + 4608273662721
            * noise[8 * k + 6] + 594467302491009 * noise[8 * k + 7],
    )) by {
        let at = NOISE_UNPACK_START + k * 8;
        let b = byte_polyval(noise, k * 8, 8, 129);
        assert forall|j: int| k * 8 <= j < k * 8 + 8 implies s[at + (j - k * 8)] == enc(
            #[trigger] noise[j] as int,
        ) by {
            assert(s[NOISE_UNPACK_START + j] == enc(noise[j] as int));
        }
        lemma_polyval_bytes(s, at, noise, k * 8, 8, 129);
        lemma_eight_bytes(noise, k * 8);
        lemma_word_is_value(s[NOISE_PACKED_PREP + k] as int, polyval(s, at, 8, 129), b);
    }
    if input_rules(w) {
        assert forall|i: int| 0 <= i < 16 implies #[trigger] s[NOISED_PACKED_START + i] == enc(
            (mat[4 * i] + noise[4 * i]) + 256 * (mat[4 * i + 1] + noise[4 * i + 1]) + 65536 * (mat[4
                * i + 2] + noise[4 * i + 2]) + 16777216 * (mat[4 * i + 3] + noise[4 * i + 3]),
        ) by {
            assert(noised_rule(s, i));
        }
        assert forall|k: int| 0 <= k < 8 implies #[trigger] s[NOISE_PACKED_PREP + k] == enc(
            noise[8 * k] + 129 * noise[8 * k + 1] + 16641 * noise[8 * k + 2] + 2146689 * noise[8 * k
                + 3] + 276922881 * noise[8 * k + 4] + 35723051649 * noise[8 * k + 5] + 4608273662721
                * noise[8 * k + 6] + 594467302491009 * noise[8 * k + 7],
        ) by {
            assert(noise_rule(s, k));
        }
    }
}

/// A canonical cell vanishes against a value exactly where it is the residue
/// of any equal value.
proof fn lemma_word_is_value(cell: int, x: int, y: int)
    requires
        0 <= cell < p(),
        is_zero(x - y),
    ensures
        is_zero(cell - x) <==> cell == enc(y),
{
    lemma_enc_feq(y);
    if is_zero(cell - x) {
        lemma_zero_add(cell - x, x - y);
        lemma_zero_add((cell - x) + (x - y), y - enc(y));
        lemma_feq_canonical(cell, enc(y));
    }
    if cell == enc(y) {
        lemma_zero_add(enc(y) - y, x - y);
    }
}

/// What filling a slice writes: the eight matrix bytes, the eight noise bytes,
/// the noise word in base 129 and the two noised words in base 256, all of
/// them as residues.
pub proof fn filled_slice_holds_its_bytes(row: Seq<u64>, mat: Seq<i8>, noise: Seq<i8>)
    requires
        slice_filled(row, mat, noise),
    ensures
        forall|k: int|
            0 <= k < 8 ==> #[trigger] row[MAT_UNPACK_START + k] == if mat[k] >= 0 {
                mat[k] as int
            } else {
                p() + mat[k]
            },
        forall|k: int|
            0 <= k < 8 ==> #[trigger] row[NOISE_UNPACK_START + k] == if noise[k] >= 0 {
                noise[k] as int
            } else {
                p() + noise[k]
            },
        row[NOISE_PACKED_PREP as int] == enc(
            noise[0] + 129 * noise[1] + 16641 * noise[2] + 2146689 * noise[3] + 276922881
                * noise[4] + 35723051649 * noise[5] + 4608273662721 * noise[6] + 594467302491009
                * noise[7],
        ),
        row[NOISED_PACKED_START as int] == enc(
            (mat[0] + noise[0]) + 256 * (mat[1] + noise[1]) + 65536 * (mat[2] + noise[2]) + 16777216
                * (mat[3] + noise[3]),
        ),
        row[NOISED_PACKED_START + 1] == enc(
            (mat[4] + noise[4]) + 256 * (mat[5] + noise[5]) + 65536 * (mat[6] + noise[6]) + 16777216
                * (mat[7] + noise[7]),
        ),
{
    lemma_eight_bytes(noise, 0);
    lemma_four_bytes(mat, 0);
    lemma_four_bytes(mat, 4);
    lemma_four_bytes(noise, 0);
    lemma_four_bytes(noise, 4);
    assert(noised_word(row, mat, noise, 0));
    assert(noised_word(row, mat, noise, 1));
    assert forall|k: int| 0 <= k < 8 implies #[trigger] row[MAT_UNPACK_START + k] == if mat[k]
        >= 0 {
        mat[k] as int
    } else {
        p() + mat[k]
    } by {
        assert(row[MAT_UNPACK_START + k] == enc(mat[k] as int));
        lemma_enc_i32(mat[k] as i32);
    }
    assert forall|k: int| 0 <= k < 8 implies #[trigger] row[NOISE_UNPACK_START + k] == if noise[k]
        >= 0 {
        noise[k] as int
    } else {
        p() + noise[k]
    } by {
        assert(row[NOISE_UNPACK_START + k] == enc(noise[k] as int));
        lemma_enc_i32(noise[k] as i32);
    }
}

} // verus!
