//! The accumulator update on plain words.

use vstd::prelude::*;
use vstd::wrapping::i32_specs;

use crate::composite_layout::{TILE_D, TILE_H};

verus! {

/// Cells of an accumulator tile.
pub const CUMSUM_LEN: usize = 4;

/// The inner product of the first entries of two byte vectors.
pub open spec fn inner_product(a: Seq<i8>, b: Seq<i8>, n: nat) -> int
    decreases n,
{
    if n == 0 {
        0
    } else {
        inner_product(a, b, (n - 1) as nat) + a[n - 1] * b[n - 1]
    }
}

/// The product of two bytes is small.
proof fn lemma_product_bound(x: i8, y: i8)
    ensures
        -16384 <= x * y <= 16384,
{
    assert(-16384 <= x * y <= 16384) by (nonlinear_arith)
        requires
            -128 <= x <= 127,
            -128 <= y <= 127,
    ;
}

/// Inner products of byte vectors are small.
pub proof fn lemma_inner_product_bound(a: Seq<i8>, b: Seq<i8>, n: nat)
    ensures
        -16384 * n <= inner_product(a, b, n) <= 16384 * n,
    decreases n,
{
    if n > 0 {
        lemma_inner_product_bound(a, b, (n - 1) as nat);
        lemma_product_bound(a[n - 1], b[n - 1]);
    }
}

/// The inner product of two byte vectors.
pub fn tile_dot(a: &[i8; TILE_D], b: &[i8; TILE_D]) -> (r: i32)
    ensures
        r == inner_product(a@, b@, 16),
{
    let mut acc: i32 = 0;
    let mut d: usize = 0;
    while d < TILE_D
        invariant
            d <= 16,
            acc == inner_product(a@, b@, d as nat),
        decreases 16 - d,
    {
        proof {
            lemma_inner_product_bound(a@, b@, d as nat);
            lemma_product_bound(a@[d as int], b@[d as int]);
        }
        acc = acc + (a[d] as i32) * (b[d] as i32);
        d = d + 1;
    }
    acc
}

/// The inner products of every row of one tile with every row of another,
/// row by row.
pub open spec fn dot_block(
    a: Seq<[i8; TILE_D]>,
    b: Seq<[i8; TILE_D]>,
) -> Seq<int> {
    Seq::new(4, |k: int| inner_product(a[k / 2]@, b[k % 2]@, 16))
}

/// The inner products of every row of one tile with every row of another.
pub fn tile_dot_block(a: &[[i8; TILE_D]; TILE_H], b: &[[i8; TILE_D]; TILE_H]) -> (out: [i32;
    CUMSUM_LEN])
    ensures
        forall|k: int| 0 <= k < 4 ==> #[trigger] out@[k] == dot_block(a@, b@)[k],
{
    let mut out: [i32; CUMSUM_LEN] = [0i32;4];
    let mut i: usize = 0;
    while i < TILE_H
        invariant
            i <= 2,
            forall|k: int| 0 <= k < 2 * i ==> #[trigger] out@[k] == dot_block(a@, b@)[k],
        decreases 2 - i,
    {
        let mut j: usize = 0;
        while j < TILE_H
            invariant
                i < 2,
                j <= 2,
                forall|k: int| 0 <= k < 2 * i + j ==> #[trigger] out@[k] == dot_block(a@, b@)[k],
            decreases 2 - j,
        {
            out[i * TILE_H + j] = tile_dot(&a[i], &b[j]);
            j = j + 1;
        }
        i = i + 1;
    }
    out
}

/// One accumulator cell after an update: the inner product on a reset, the
/// wrapping sum on an update, unchanged otherwise. A reset wins.
pub open spec fn cumsum_cell(old: i32, dot: i32, is_reset: bool, is_update: bool) -> i32 {
    if is_reset {
        dot
    } else if is_update {
        i32_specs::wrapping_add(old, dot)
    } else {
        old
    }
}

/// The accumulator after one row.
pub fn apply_cumsum_update(
    cumsum_old: &[i32; CUMSUM_LEN],
    dot: &[i32; CUMSUM_LEN],
    is_reset: bool,
    is_update: bool,
) -> (out: [i32; CUMSUM_LEN])
    ensures
        forall|k: int|
            0 <= k < 4 ==> #[trigger] out@[k] == cumsum_cell(
                cumsum_old@[k],
                dot@[k],
                is_reset,
                is_update,
            ),
{
    let mut out: [i32; CUMSUM_LEN] = [0i32;4];
    let mut k: usize = 0;
    while k < CUMSUM_LEN
        invariant
            k <= 4,
            forall|i: int|
                0 <= i < k ==> #[trigger] out@[i] == cumsum_cell(
                    cumsum_old@[i],
                    dot@[i],
                    is_reset,
                    is_update,
                ),
        decreases 4 - k,
    {
        out[k] = if is_reset {
            dot[k]
        } else if is_update {
            cumsum_old[k].wrapping_add(dot[k])
        } else {
            cumsum_old[k]
        };
        k = k + 1;
    }
    out
}

/// The accumulator after a row with the given tiles and selectors.
pub open spec fn row_result(
    a: Seq<[i8; TILE_D]>,
    b: Seq<[i8; TILE_D]>,
    old: Seq<i32>,
    is_reset: bool,
    is_update: bool,
) -> Seq<i32> {
    Seq::new(4, |k: int| cumsum_cell(old[k], dot_block(a, b)[k] as i32, is_reset, is_update))
}

/// The accumulator after a row with the given tiles and selectors.
pub fn compute_row(
    a: &[[i8; TILE_D]; TILE_H],
    b: &[[i8; TILE_D]; TILE_H],
    cumsum_old: &[i32; CUMSUM_LEN],
    is_reset: bool,
    is_update: bool,
) -> (out: [i32; CUMSUM_LEN])
    ensures
        out@ == row_result(a@, b@, cumsum_old@, is_reset, is_update),
{
    let dot = tile_dot_block(a, b);
    let out = apply_cumsum_update(cumsum_old, &dot, is_reset, is_update);
    assert(out@ =~= row_result(a@, b@, cumsum_old@, is_reset, is_update));
    out
}

/// The inner product of two rows of sixteen bytes, as the sum of the list of
/// their products.
pub open spec fn product_sum(a: Seq<i8>, b: Seq<i8>) -> int {
    Seq::new(16, |d: int| a[d] * b[d]).fold_left(0, |acc: int, x: int| acc + x)
}

/// The running inner product is the sum of the first products.
proof fn lemma_product_sum(a: Seq<i8>, b: Seq<i8>, n: nat)
    ensures
        inner_product(a, b, n) == Seq::new(n, |d: int| a[d] * b[d]).fold_left(
            0,
            |acc: int, x: int| acc + x,
        ),
    decreases n,
{
    let xs = Seq::new(n, |d: int| a[d] * b[d]);
    if n > 0 {
        lemma_product_sum(a, b, (n - 1) as nat);
        assert(xs.drop_last() =~= Seq::new((n - 1) as nat, |d: int| a[d] * b[d]));
    }
}

/// The four inner products of two tiles: each row of the left one with each row
/// of the right one, the left row leading.
pub proof fn tile_products_pair_rows(a: Seq<[i8; TILE_D]>, b: Seq<[i8; TILE_D]>)
    ensures
        dot_block(a, b).len() == 4,
        dot_block(a, b)[0] == product_sum(a[0]@, b[0]@),
        dot_block(a, b)[1] == product_sum(a[0]@, b[1]@),
        dot_block(a, b)[2] == product_sum(a[1]@, b[0]@),
        dot_block(a, b)[3] == product_sum(a[1]@, b[1]@),
{
    lemma_product_sum(a[0]@, b[0]@, 16);
    lemma_product_sum(a[0]@, b[1]@, 16);
    lemma_product_sum(a[1]@, b[0]@, 16);
    lemma_product_sum(a[1]@, b[1]@, 16);
}

/// The inner product in terms of the sum of products.
pub proof fn lemma_inner_product_is_sum(a: Seq<i8>, b: Seq<i8>)
    ensures
        inner_product(a, b, 16) == product_sum(a, b),
{
    lemma_product_sum(a, b, 16);
}

/// What a row does to the accumulator: a reset forgets it, an update adds to
/// it, and a row that is neither leaves it. A reset wins over an update.
pub proof fn rows_reset_update_or_keep(
    a: Seq<[i8; TILE_D]>,
    b: Seq<[i8; TILE_D]>,
    u: Seq<i32>,
    v: Seq<i32>,
    k: int,
)
    requires
        0 <= k < 4,
    ensures
        row_result(a, b, u, true, false)[k] == product_sum(a[k / 2]@, b[k % 2]@),
        row_result(a, b, u, true, false)[k] == row_result(a, b, v, true, false)[k],
        row_result(a, b, u, true, true)[k] == row_result(a, b, u, true, false)[k],
        row_result(a, b, u, false, false)[k] == u[k],
        (row_result(a, b, u, false, true)[k] - u[k] - product_sum(a[k / 2]@, b[k % 2]@))
            % 0x1_0000_0000 == 0,
{
    lemma_inner_product_is_sum(a[k / 2]@, b[k % 2]@);
    lemma_inner_product_bound(a[k / 2]@, b[k % 2]@, 16);
}

} // verus!
