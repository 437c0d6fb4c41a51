//! Row-major traces and the rows they are built from.

use vstd::prelude::*;

use crate::air::Window;
use crate::bits::{bit, has_bits};
use crate::field::{canonical, enc, p, val_from_i64, val_from_u64, Val};

verus! {

/// A row-major matrix of field elements.
#[derive(Clone, Debug, PartialEq, Eq)]
pub struct RowMajorMatrix {
    /// The cells, row after row.
    pub values: Vec<Val>,
    /// The number of columns.
    pub width: usize,
}

impl RowMajorMatrix {
    /// The cells fill whole rows and are canonical representatives.
    pub open spec fn wf(self) -> bool {
        &&& self.width > 0
        &&& self.values@.len() == self.spec_height() * self.width
        &&& canonical(self.values@)
    }

    /// The number of rows.
    pub open spec fn spec_height(self) -> nat {
        if self.width == 0 {
            0
        } else {
            (self.values@.len() / (self.width as nat)) as nat
        }
    }

    /// One row.
    pub open spec fn row(self, r: int) -> Seq<u64> {
        self.values@.subrange(r * self.width, r * self.width + self.width)
    }

    /// One cell.
    pub open spec fn cell(self, r: int, c: int) -> u64 {
        self.values@[r * self.width + c]
    }

    /// What a constraint sees at one row. The row below the last is the first.
    pub open spec fn window(self, r: int, fixed: Seq<u64>, public: Seq<u64>) -> Window {
        Window {
            cur: self.row(r),
            nxt: if r + 1 < self.spec_height() {
                self.row(r + 1)
            } else {
                self.row(0)
            },
            fixed,
            public,
            first: r == 0,
            last: r + 1 == self.spec_height(),
        }
    }

    /// A predicate on windows holds at every row, for a trace that has neither
    /// fixed columns nor public values.
    pub open spec fn satisfies(self, rule: spec_fn(Window) -> bool) -> bool {
        forall|r: int|
            0 <= r < self.spec_height() ==> rule(
                #[trigger] self.window(r, Seq::empty(), Seq::empty()),
            )
    }

    /// The number of rows.
    pub fn height(&self) -> (h: usize)
        requires
            self.width > 0,
        ensures
            h == self.spec_height(),
    {
        self.values.len() / self.width
    }
}

/// The cells of a row of a well-formed trace are canonical.
pub proof fn lemma_row_canonical(m: RowMajorMatrix, r: int)
    requires
        m.wf(),
        0 <= r < m.spec_height(),
    ensures
        canonical(m.row(r)),
        m.row(r).len() == m.width,
{
    let w = m.width as int;
    let h = m.spec_height() as int;
    assert(0 <= r * w && r * w + w <= h * w) by (nonlinear_arith)
        requires
            0 <= r < h,
            w > 0,
    ;
    assert forall|i: int| 0 <= i < m.row(r).len() implies (#[trigger] m.row(r)[i]) < p() by {
        assert(m.row(r)[i] == m.values@[r * w + i]);
    }
}


/// Rows laid end to end.
pub open spec fn flatten_rows(rows: Seq<Seq<u64>>) -> Seq<u64>
    decreases rows.len(),
{
    if rows.len() == 0 {
        Seq::empty()
    } else {
        flatten_rows(rows.drop_last()) + rows.last()
    }
}

/// The cells of rows laid end to end.
pub proof fn lemma_flatten_rows(rows: Seq<Seq<u64>>, width: int)
    requires
        width > 0,
        forall|r: int| 0 <= r < rows.len() ==> (#[trigger] rows[r]).len() == width,
    ensures
        flatten_rows(rows).len() == rows.len() * width,
        forall|r: int|
            0 <= r < rows.len() ==> flatten_rows(rows).subrange(r * width, r * width + width)
                == #[trigger] rows[r],
    decreases rows.len(),
{
    if rows.len() > 0 {
        let init = rows.drop_last();
        let n = init.len() as int;
        lemma_flatten_rows(init, width);
        assert((n + 1) * width == n * width + width) by (nonlinear_arith);
        let all = flatten_rows(rows);
        assert(all == flatten_rows(init) + rows.last());
        assert forall|r: int| 0 <= r < rows.len() implies all.subrange(
            r * width,
            r * width + width,
        ) == #[trigger] rows[r] by {
            if r < n {
                assert(r * width + width <= n * width) by (nonlinear_arith)
                    requires
                        r < n,
                        width > 0,
                ;
                assert(0 <= r * width) by (nonlinear_arith)
                    requires
                        0 <= r,
                        width > 0,
                ;
                assert(init[r] == rows[r]);
                assert(all.subrange(r * width, r * width + width) =~= flatten_rows(init).subrange(
                    r * width,
                    r * width + width,
                ));
            } else {
                assert(all.subrange(n * width, n * width + width) =~= rows.last());
            }
        }
    } else {
        assert(0 * width == 0);
    }
}

/// One more row laid at the end.
pub proof fn lemma_flatten_push(rows: Seq<Seq<u64>>, row: Seq<u64>)
    ensures
        flatten_rows(rows.push(row)) == flatten_rows(rows) + row,
{
    assert(rows.push(row).drop_last() =~= rows);
}

/// A matrix whose cells are some rows laid end to end has those rows.
pub proof fn lemma_matrix_rows(m: RowMajorMatrix, rows: Seq<Seq<u64>>)
    requires
        m.width > 0,
        m.values@ == flatten_rows(rows),
        forall|r: int| 0 <= r < rows.len() ==> (#[trigger] rows[r]).len() == m.width,
        forall|r: int| 0 <= r < rows.len() ==> canonical(#[trigger] rows[r]),
    ensures
        m.wf(),
        m.spec_height() == rows.len(),
        forall|r: int| 0 <= r < rows.len() ==> m.row(r) == #[trigger] rows[r],
        forall|r: int, c: int|
            0 <= r < rows.len() && 0 <= c < m.width ==> #[trigger] m.cell(r, c) == rows[r][c],
{
    let w = m.width as int;
    let n = rows.len() as int;
    lemma_flatten_rows(rows, w);
    assert((n * w) / w == n) by {
        vstd::arithmetic::div_mod::lemma_div_by_multiple(n, w);
    }
    assert forall|r: int| 0 <= r < rows.len() implies m.row(r) == #[trigger] rows[r] by {}
    assert forall|r: int, c: int| 0 <= r < rows.len() && 0 <= c < m.width implies #[trigger] m.cell(
        r,
        c,
    ) == rows[r][c] by {
        assert(m.row(r) == rows[r]);
        assert(r * w + w <= n * w && 0 <= r * w) by (nonlinear_arith)
            requires
                0 <= r < n,
                w > 0,
        ;
        assert(m.row(r)[c] == m.values@[r * w + c]);
    }
    assert forall|i: int| 0 <= i < m.values@.len() implies (#[trigger] m.values@[i]) < p() by {
        let r = i / w;
        let c = i % w;
        vstd::arithmetic::div_mod::lemma_fundamental_div_mod(i, w);
        vstd::arithmetic::div_mod::lemma_mod_bound(i, w);
        assert(0 <= r < n) by (nonlinear_arith)
            requires
                i == w * r + c,
                0 <= c < w,
                0 <= i < n * w,
        ;
        assert(r * w + c == i) by (nonlinear_arith)
            requires
                i == w * r + c,
        ;
        assert(m.cell(r, c) == rows[r][c]);
        assert(canonical(rows[r]));
    }
}

/// The smallest of `k`, `2k`, `4k`, ... that is at least `n`.
pub open spec fn doubled_to(k: nat, n: nat) -> nat
    decreases if k < n { n - k } else { 0 },
{
    if k == 0 || k >= n {
        k
    } else {
        doubled_to(2 * k, n)
    }
}

/// The height of a trace with `n` rows in use: the smallest power of two that
/// is at least `n` and at least four.
pub open spec fn padded_height(n: nat) -> nat {
    doubled_to(4, n)
}

/// Doubling reaches the target and stops at once.
proof fn lemma_doubled_to(k: nat, n: nat)
    requires
        k > 0,
    ensures
        doubled_to(k, n) >= n,
        doubled_to(k, n) >= k,
        doubled_to(k, n) == k || doubled_to(k, n) < 2 * n,
        forall|e: nat| k == #[trigger] vstd::arithmetic::power2::pow2(e) ==> exists|f: nat|
            doubled_to(k, n) == #[trigger] vstd::arithmetic::power2::pow2(f),
    decreases if k < n { n - k } else { 0 },
{
    if k < n {
        lemma_doubled_to(2 * k, n);
        assert forall|e: nat| k == #[trigger] vstd::arithmetic::power2::pow2(e) implies exists|
            f: nat,
        |
            doubled_to(k, n) == #[trigger] vstd::arithmetic::power2::pow2(f) by {
            vstd::arithmetic::power2::lemma_pow2_unfold(e + 1);
            assert(2 * k == vstd::arithmetic::power2::pow2(e + 1));
        }
    }
}

/// A padded height is a power of two, holds the rows in use, is at least four,
/// and no smaller power of two does.
pub proof fn padded_height_is_least_power_of_two(n: nat)
    ensures
        padded_height(n) >= n,
        padded_height(n) >= 4,
        exists|f: nat| padded_height(n) == #[trigger] vstd::arithmetic::power2::pow2(f),
        padded_height(n) == 4 || padded_height(n) < 2 * n,
{
    vstd::arithmetic::power2::lemma2_to64();
    lemma_doubled_to(4, n);
    assert(4 == vstd::arithmetic::power2::pow2(2));
}

/// The height of a trace with `n` rows in use.
pub fn padded_len(n: usize) -> (h: usize)
    requires
        padded_height(n as nat) <= usize::MAX,
    ensures
        h == padded_height(n as nat),
{
    let mut k: usize = 4;
    while k < n
        invariant
            k > 0,
            doubled_to(k as nat, n as nat) == padded_height(n as nat),
            padded_height(n as nat) <= usize::MAX,
        decreases if k < n { n - k } else { 0 },
    {
        proof {
            lemma_doubled_to((2 * k) as nat, n as nat);
        }
        k = k * 2;
    }
    k
}

/// A row of zeros.
pub fn zero_row(width: usize) -> (row: Vec<Val>)
    ensures
        row@.len() == width,
        forall|c: int| 0 <= c < width ==> row@[c] == 0,
{
    let mut row: Vec<Val> = Vec::new();
    let mut i: usize = 0;
    while i < width
        invariant
            i <= width,
            row@.len() == i,
            forall|c: int| 0 <= c < i ==> row@[c] == 0,
        decreases width - i,
    {
        row.push(0);
        i = i + 1;
    }
    row
}

/// Writes the bits of a word into the cells `at..at + 32`.
pub fn set_bits(row: &mut [Val], at: usize, v: u32)
    requires
        at + 32 <= old(row).len(),
    ensures
        final(row)@.len() == old(row)@.len(),
        has_bits(final(row)@, at as int, v),
        forall|c: int|
            0 <= c < old(row)@.len() && !(at <= c < at + 32) ==> final(row)@[c] == old(row)@[c],
{
    let mut i: usize = 0;
    while i < 32
        invariant
            i <= 32,
            at + 32 <= row.len(),
            row@.len() == old(row)@.len(),
            forall|c: int| at <= c < at + i ==> row@[c] == bit(v, c - at),
            forall|c: int|
                0 <= c < old(row)@.len() && !(at <= c < at + i) ==> row@[c] == old(row)@[c],
        decreases 32 - i,
    {
        let b: u32 = (v >> (i as u32)) & 1;
        row[at + i] = val_of_u32(b);
        i = i + 1;
    }
}

/// Appends a row to the cells of a trace.
pub fn push_row(values: &mut Vec<Val>, row: &Vec<Val>)
    ensures
        final(values)@ == old(values)@ + row@,
{
    let mut i: usize = 0;
    while i < row.len()
        invariant
            i <= row@.len(),
            values@ == old(values)@ + row@.take(i as int),
        decreases row@.len() - i,
    {
        values.push(row[i]);
        i = i + 1;
        assert(row@.take(i as int) =~= row@.take(i - 1).push(row@[i - 1]));
    }
    assert(row@.take(row@.len() as int) =~= row@);
}

/// The field element of an unsigned word.
pub fn val_of_u32(v: u32) -> (r: Val)
    ensures
        r == v,
{
    proof {
        crate::field::lemma_enc_small(v as int);
    }
    val_from_u64(v as u64)
}

/// The field element of a signed word.
pub fn val_of_i32(v: i32) -> (r: Val)
    ensures
        r == enc(v as int),
        r < p(),
{
    let r = val_from_i64(v as i64);
    proof {
        crate::field::lemma_enc_feq(v as int);
    }
    r
}

} // verus!
