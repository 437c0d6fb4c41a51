//! One-hot selectors: boolean columns of which at most one is set.

use vstd::prelude::*;

use crate::air::{all_bool, dot_cells, is_bool, sum_cells};
use crate::bits::{boolean_cells, lemma_sum_cells_bound};
use crate::field::{canonical, is_zero, lemma_zero_small, p};
use crate::prime::bool_check_is_boolean;

verus! {

/// Of the cells `start..start + n`, the one at `k` is `1` and the others `0`.
pub open spec fn one_hot(s: Seq<u64>, start: int, n: int, k: int) -> bool {
    forall|j: int|
        start <= j < start + n ==> (#[trigger] s[j]) == if j == start + k {
            1int
        } else {
            0int
        }
}

/// The cells `start..start + n` are all zero.
pub open spec fn none_hot(s: Seq<u64>, start: int, n: int) -> bool {
    forall|j: int| start <= j < start + n ==> #[trigger] s[j] == 0
}

/// The index of the cell that is set.
pub open spec fn hot_index(s: Seq<u64>, start: int, n: int) -> int {
    choose|k: int| 0 <= k < n && one_hot(s, start, n, k)
}

/// Cells that pass the boolean check are boolean.
pub proof fn lemma_checked_boolean(s: Seq<u64>, start: int, n: int)
    requires
        canonical(s),
        0 <= start,
        start + n <= s.len(),
        all_bool(s, start, n),
    ensures
        boolean_cells(s, start, n),
{
    assert forall|j: int| start <= j < start + n implies (#[trigger] s[j] == 0 || s[j] == 1) by {
        assert(is_bool(s[j] as int));
        bool_check_is_boolean(s[j] as int);
    }
}

/// Boolean cells that add up to zero are all zero.
pub proof fn lemma_none_hot(s: Seq<u64>, start: int, n: nat)
    requires
        boolean_cells(s, start, n as int),
        sum_cells(s, start, n) == 0,
    ensures
        none_hot(s, start, n as int),
    decreases n,
{
    if n > 0 {
        lemma_sum_cells_bound(s, start, (n - 1) as nat);
        assert(s[start + n - 1] == 0 || s[start + n - 1] == 1);
        lemma_none_hot(s, start, (n - 1) as nat);
    }
}

/// Boolean cells that add up to one have exactly one that is set.
pub proof fn lemma_one_hot(s: Seq<u64>, start: int, n: nat)
    requires
        boolean_cells(s, start, n as int),
        sum_cells(s, start, n) == 1,
    ensures
        0 <= hot_index(s, start, n as int) < n,
        one_hot(s, start, n as int, hot_index(s, start, n as int)),
    decreases n,
{
    if n > 0 {
        assert(s[start + n - 1] == 0 || s[start + n - 1] == 1);
        if s[start + n - 1] == 1 {
            lemma_none_hot(s, start, (n - 1) as nat);
            assert(one_hot(s, start, n as int, n - 1));
        } else {
            lemma_one_hot(s, start, (n - 1) as nat);
            assert(one_hot(s, start, n as int, hot_index(s, start, n - 1)));
        }
    }
}

/// The sum of no set cell is zero.
pub proof fn lemma_none_hot_sum(s: Seq<u64>, start: int, n: nat)
    requires
        none_hot(s, start, n as int),
    ensures
        sum_cells(s, start, n) == 0,
        boolean_cells(s, start, n as int),
    decreases n,
{
    if n > 0 {
        lemma_none_hot_sum(s, start, (n - 1) as nat);
    }
}

/// The sum of a one-hot selector is one.
pub proof fn lemma_one_hot_sum(s: Seq<u64>, start: int, n: nat, k: int)
    requires
        0 <= k < n,
        one_hot(s, start, n as int, k),
    ensures
        sum_cells(s, start, n) == 1,
        boolean_cells(s, start, n as int),
    decreases n,
{
    if k == n - 1 {
        assert(none_hot(s, start, n - 1));
        lemma_none_hot_sum(s, start, (n - 1) as nat);
    } else {
        assert(one_hot(s, start, n - 1, k));
        lemma_one_hot_sum(s, start, (n - 1) as nat, k);
    }
}

/// Nothing selected adds up to zero.
pub proof fn lemma_none_hot_dot(s: Seq<u64>, a: int, t: Seq<u64>, b: int, n: nat)
    requires
        none_hot(s, a, n as int),
    ensures
        dot_cells(s, a, t, b, n) == 0,
    decreases n,
{
    if n > 0 {
        lemma_none_hot_dot(s, a, t, b, (n - 1) as nat);
        assert(0 * t[b + n - 1] == 0);
    }
}

/// A one-hot selector picks one cell.
pub proof fn lemma_one_hot_dot(s: Seq<u64>, a: int, t: Seq<u64>, b: int, n: nat, k: int)
    requires
        0 <= k < n,
        one_hot(s, a, n as int, k),
    ensures
        dot_cells(s, a, t, b, n) == t[b + k],
    decreases n,
{
    if k == n - 1 {
        assert(none_hot(s, a, n - 1));
        lemma_none_hot_dot(s, a, t, b, (n - 1) as nat);
        assert(s[a + n - 1] == 1);
        assert(1 * t[b + n - 1] == t[b + n - 1]);
    } else {
        assert(one_hot(s, a, n - 1, k));
        lemma_one_hot_dot(s, a, t, b, (n - 1) as nat, k);
        assert(s[a + n - 1] == 0);
        assert(0 * t[b + n - 1] == 0);
    }
}

/// A selector whose cells pass the boolean check and add up to a boolean flag
/// is one-hot where the flag is set and empty where it is not.
pub proof fn selector_follows_flag(s: Seq<u64>, flag: int, start: int, n: nat)
    requires
        canonical(s),
        0 <= start,
        start + n <= s.len(),
        n < p(),
        flag == 0 || flag == 1,
        all_bool(s, start, n as int),
        is_zero(sum_cells(s, start, n) - flag),
    ensures
        boolean_cells(s, start, n as int),
        flag == 0 ==> none_hot(s, start, n as int),
        flag == 1 ==> 0 <= hot_index(s, start, n as int) < n && one_hot(
            s,
            start,
            n as int,
            hot_index(s, start, n as int),
        ),
{
    lemma_checked_boolean(s, start, n as int);
    lemma_sum_cells_bound(s, start, n);
    lemma_zero_small(sum_cells(s, start, n) - flag);
    if flag == 0 {
        lemma_none_hot(s, start, n);
    } else {
        lemma_one_hot(s, start, n);
    }
}

} // verus!
