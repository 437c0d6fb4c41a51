//! A minimal lookup: a byte table, and one query per row.
//!
//! ```text
//!   col 0: the table: 0, 1, ..., 255, then 255 again
//!   col 1: how often each entry is queried
//!   col 2: the value that the row queries
//!   col 3: 1 where the row queries
//! ```

use vstd::arithmetic::power2::pow2;
use vstd::prelude::*;

use crate::air::{is_bool, ConstraintBuilder, Expr, Rows, Window};
use crate::bus::{key_count, query_entry, table_entry, BusEntry, InteractionBuilder};
use crate::composite_lookups::BUS_URANGE8;
use crate::field::{
    canonical, enc, is_zero, lemma_enc_feq, lemma_enc_small, lemma_feq_canonical,
    lemma_zero_small, p, val_from_u64, Val,
};
use crate::matrix::{
    flatten_rows, lemma_flatten_push, lemma_matrix_rows, lemma_row_canonical, push_row,
    val_of_u32, zero_row, RowMajorMatrix,
};
use crate::prime::{bool_check_is_boolean, no_zero_divisors};

verus! {

/// The table column.
pub const COL_TABLE: usize = 0;

/// The multiplicity column.
pub const COL_FREQ: usize = 1;

/// The query column.
pub const COL_QUERY: usize = 2;

/// The query flag column.
pub const COL_QUERY_FLAG: usize = 3;

/// Number of columns.
pub const WIDTH: usize = 4;

/// The byte lookup.
#[derive(Copy, Clone, Debug, Default)]
pub struct UrangeBusDemoAir;

/// The constraints at one window: the table starts at zero and grows by at
/// most one, the flag is boolean.
pub open spec fn demo_rules(w: Window) -> bool {
    let delta = w.nxt[COL_TABLE as int] - w.cur[COL_TABLE as int];
    &&& w.first ==> is_zero(w.cur[COL_TABLE as int] as int)
    &&& !w.last ==> is_zero(delta * (delta - 1))
    &&& is_bool(w.cur[COL_QUERY_FLAG as int] as int)
}

/// What a row sends to and receives from the bus.
pub open spec fn demo_entries(s: Seq<u64>) -> Seq<BusEntry> {
    seq![
        table_entry(BUS_URANGE8, seq![s[COL_TABLE as int] as int], s[COL_FREQ as int] as int),
        query_entry(
            BUS_URANGE8,
            seq![s[COL_QUERY as int] as int],
            s[COL_QUERY_FLAG as int] as int,
        ),
    ]
}

impl UrangeBusDemoAir {
    /// The number of columns.
    pub fn width(&self) -> (n: usize)
        ensures
            n == WIDTH,
    {
        WIDTH
    }

    /// Emits the constraints and the interactions with the bus.
    pub fn eval(&self, builder: &mut ConstraintBuilder, buses: &mut InteractionBuilder)
        ensures
            forall|w: Window| #[trigger]
                final(builder).holds(w) <==> (old(builder).holds(w) && demo_rules(w)),
            forall|d: nat|
                d >= 2 && old(builder).degree_at_most(d) ==> #[trigger] final(builder).degree_at_most(d),
            forall|w: Window| #[trigger]
                final(buses).entries(w) == old(buses).entries(w) + demo_entries(w.cur),
    {
        builder.assert_zero_on(Rows::First, Expr::cur(COL_TABLE));
        let ghost b1 = *builder;
        let delta = Expr::next(COL_TABLE).minus(Expr::cur(COL_TABLE));
        let rest = delta.dup().minus(Expr::constant(1));
        let step = delta.dup().times(rest);
        builder.assert_zero_on(Rows::Transition, step);
        let ghost b2 = *builder;
        builder.assert_bool(COL_QUERY_FLAG);
        assert forall|w: Window| #[trigger]
            builder.holds(w) <==> (old(builder).holds(w) && demo_rules(w)) by {
            assert(b1.holds(w) <==> (old(builder).holds(w) && (w.first ==> is_zero(
                w.cur[COL_TABLE as int] as int,
            ))));
            assert(rest.value(w) == delta.value(w) - 1);
            assert(step.value(w) == delta.value(w) * rest.value(w));
            assert(b2.holds(w) <==> (b1.holds(w) && (!w.last ==> is_zero(step.value(w)))));
        }
        buses.push_table(BUS_URANGE8, COL_TABLE, COL_FREQ);
        let ghost e1 = *buses;
        buses.push_query(BUS_URANGE8, COL_QUERY, COL_QUERY_FLAG);
        assert forall|w: Window| #[trigger]
            buses.entries(w) == old(buses).entries(w) + demo_entries(w.cur) by {
            assert(e1.entries(w) == old(buses).entries(w).push(demo_entries(w.cur)[0]));
            assert(buses.entries(w) =~= old(buses).entries(w) + demo_entries(w.cur));
        }
    }
}

/// How many of the queries ask for a value.
pub open spec fn count_eq(queries: Seq<u32>, v: int) -> nat
    decreases queries.len(),
{
    if queries.len() == 0 {
        0
    } else {
        count_eq(queries.drop_last(), v) + if queries.last() == v {
            1nat
        } else {
            0nat
        }
    }
}

/// One row of the trace.
pub open spec fn row_matches(row: Seq<u64>, r: int, queries: Seq<u32>, padding: u32) -> bool {
    &&& row.len() == WIDTH
    &&& canonical(row)
    &&& row[COL_TABLE as int] == if r < 255 {
        r
    } else {
        255
    }
    &&& row[COL_FREQ as int] == if r < 256 {
        enc(count_eq(queries, r) as int)
    } else {
        0
    }
    &&& row[COL_QUERY as int] == if r < queries.len() {
        queries[r]
    } else {
        padding
    }
    &&& row[COL_QUERY_FLAG as int] == if r < queries.len() {
        1int
    } else {
        0int
    }
}

/// A trace with the table, the multiplicities of the queries, and one query
/// per row as far as they go.
pub open spec fn trace_runs(m: RowMajorMatrix, n: nat, queries: Seq<u32>, padding: u32) -> bool {
    &&& m.wf()
    &&& m.width == WIDTH
    &&& m.spec_height() == n
    &&& forall|r: int| 0 <= r < n ==> row_matches(#[trigger] m.row(r), r, queries, padding)
}

/// A count is no larger than the list.
proof fn lemma_count_bound(queries: Seq<u32>, v: int)
    ensures
        count_eq(queries, v) <= queries.len(),
    decreases queries.len(),
{
    if queries.len() > 0 {
        lemma_count_bound(queries.drop_last(), v);
    }
}

/// How many of the queries ask for each byte.
fn count_queries(queries: &[u32]) -> (freq: [u64; 256])
    ensures
        forall|v: int| 0 <= v < 256 ==> #[trigger] freq@[v] == count_eq(queries@, v),
{
    let mut freq: [u64; 256] = [0u64;256];
    let mut i: usize = 0;
    assert(queries@.take(0) =~= Seq::empty());
    while i < queries.len()
        invariant
            i <= queries@.len(),
            forall|v: int|
                0 <= v < 256 ==> #[trigger] freq@[v] == count_eq(queries@.take(i as int), v),
        decreases queries@.len() - i,
    {
        let q: u32 = queries[i];
        proof {
            assert(queries@.take(i + 1).drop_last() =~= queries@.take(i as int));
            assert(queries@.take(i + 1).last() == q);
            lemma_count_bound(queries@.take(i as int), q as int);
        }
        if (q as usize) < 256 {
            freq[q as usize] = freq[q as usize] + 1;
        }
        i = i + 1;
    }
    assert(queries@.take(i as int) =~= queries@);
    freq
}

/// A power of two.
fn power_of_two(log_n: usize) -> (n: usize)
    requires
        pow2(log_n as nat) <= usize::MAX,
    ensures
        n == pow2(log_n as nat),
{
    let mut n: usize = 1;
    let mut k: usize = 0;
    proof {
        vstd::arithmetic::power2::lemma2_to64();
    }
    while k < log_n
        invariant
            k <= log_n,
            n == pow2(k as nat),
            pow2(log_n as nat) <= usize::MAX,
        decreases log_n - k,
    {
        proof {
            vstd::arithmetic::power2::lemma_pow2_unfold((k + 1) as nat);
            if k + 1 < log_n {
                vstd::arithmetic::power2::lemma_pow2_strictly_increases(
                    (k + 1) as nat,
                    log_n as nat,
                );
            }
        }
        n = n * 2;
        k = k + 1;
    }
    n
}

/// The trace of `2^log_n` rows for a list of queries. Rows after the last
/// query hold the padding and do not query.
pub fn build_trace(log_n: usize, queries: &[u32], query_padding: u32) -> (m: RowMajorMatrix)
    requires
        pow2(log_n as nat) * WIDTH <= usize::MAX,
    ensures
        trace_runs(m, pow2(log_n as nat), queries@, query_padding),
{
    let n: usize = power_of_two(log_n);
    let freq = count_queries(queries);
    let mut values: Vec<Val> = Vec::new();
    let ghost mut rows: Seq<Seq<u64>> = Seq::empty();
    let mut r: usize = 0;
    while r < n
        invariant
            r <= n,
            forall|v: int| 0 <= v < 256 ==> #[trigger] freq@[v] == count_eq(queries@, v),
            rows.len() == r,
            values@ == flatten_rows(rows),
            forall|k: int|
                0 <= k < r ==> row_matches(#[trigger] rows[k], k, queries@, query_padding),
        decreases n - r,
    {
        let mut row = zero_row(WIDTH);
        row[COL_TABLE] = val_of_u32(
            if r < 255 {
                r as u32
            } else {
                255
            },
        );
        if r < 256 {
            proof {
                assert(freq@[r as int] == count_eq(queries@, r as int));
                lemma_enc_feq(freq@[r as int] as int);
            }
            row[COL_FREQ] = val_from_u64(freq[r]);
        }
        if r < queries.len() {
            row[COL_QUERY] = val_of_u32(queries[r]);
            row[COL_QUERY_FLAG] = val_of_u32(1);
        } else {
            row[COL_QUERY] = val_of_u32(query_padding);
        }
        push_row(&mut values, &row);
        proof {
            lemma_flatten_push(rows, row@);
            rows = rows.push(row@);
        }
        r = r + 1;
    }
    let m = RowMajorMatrix { values, width: WIDTH };
    proof {
        lemma_matrix_rows(m, rows);
        assert forall|k: int| 0 <= k < n implies row_matches(
            #[trigger] m.row(k),
            k,
            queries@,
            query_padding,
        ) by {
            assert(m.row(k) == rows[k]);
        }
    }
    m
}

/// How often the first rows ask for a value, table entries counted against
/// queries.
pub open spec fn bus_total(m: RowMajorMatrix, v: int, n: nat) -> int
    decreases n,
{
    if n == 0 {
        0
    } else {
        bus_total(m, v, (n - 1) as nat) + key_count(
            demo_entries(m.row(n - 1)),
            BUS_URANGE8,
            seq![v],
        )
    }
}

/// The bus balances: no value is asked for more or less often than the table
/// says.
pub open spec fn balanced(m: RowMajorMatrix) -> bool {
    forall|v: int| is_zero(#[trigger] bus_total(m, v, m.spec_height()))
}

/// What one row asks of a value.
proof fn lemma_row_count(s: Seq<u64>, v: int)
    ensures
        key_count(demo_entries(s), BUS_URANGE8, seq![v]) == (if s[COL_TABLE as int] == v {
            -(s[COL_FREQ as int] as int)
        } else {
            0
        }) + (if s[COL_QUERY as int] == v {
            s[COL_QUERY_FLAG as int] as int
        } else {
            0
        }),
{
    let e = demo_entries(s);
    let e1 = e.drop_last();
    assert(e1.drop_last().len() == 0);
    assert(e1.last() == e[0]);
    assert(e.last() == e[1]);
    assert(key_count(e1.drop_last(), BUS_URANGE8, seq![v]) == 0);
    assert(e[0].key[0] == s[COL_TABLE as int]);
    assert(e[1].key[0] == s[COL_QUERY as int]);
    assert(seq![v][0] == v);
    if s[COL_TABLE as int] == v {
        assert(e[0].key =~= seq![v]);
    }
    if s[COL_QUERY as int] == v {
        assert(e[1].key =~= seq![v]);
    }
    assert(key_count(e1, BUS_URANGE8, seq![v]) == key_count(e1.drop_last(), BUS_URANGE8, seq![v])
        + if e1.last().bus == BUS_URANGE8@ && e1.last().key == seq![v] {
        e1.last().count
    } else {
        0
    });
    assert(key_count(e, BUS_URANGE8, seq![v]) == key_count(e1, BUS_URANGE8, seq![v])
        + if e.last().bus == BUS_URANGE8@ && e.last().key == seq![v] {
        e.last().count
    } else {
        0
    });
}

/// In any trace that meets the constraints, a table entry is no larger than
/// its row's index.
pub proof fn table_is_bounded(m: RowMajorMatrix, r: int)
    requires
        m.wf(),
        m.width == WIDTH,
        m.spec_height() < p(),
        m.satisfies(|w: Window| demo_rules(w)),
        0 <= r < m.spec_height(),
    ensures
        m.row(r)[COL_TABLE as int] <= r,
    decreases r,
{
    let rule = |w: Window| demo_rules(w);
    lemma_row_canonical(m, r);
    let here = m.row(r)[COL_TABLE as int] as int;
    if r == 0 {
        assert(rule(m.window(0, Seq::empty(), Seq::empty())));
        lemma_feq_canonical(here, 0);
    } else {
        table_is_bounded(m, r - 1);
        let w = m.window(r - 1, Seq::empty(), Seq::empty());
        assert(rule(w));
        let above = m.row(r - 1)[COL_TABLE as int] as int;
        no_zero_divisors(here - above, here - above - 1);
        if is_zero(here - above) {
            lemma_feq_canonical(here, above);
        } else {
            lemma_feq_canonical(here, above + 1);
        }
    }
}

/// A value beyond the table is only ever asked for.
proof fn lemma_total_beyond(m: RowMajorMatrix, v: int, n: nat, q: int)
    requires
        m.wf(),
        m.width == WIDTH,
        m.spec_height() < p(),
        m.satisfies(|w: Window| demo_rules(w)),
        v >= m.spec_height(),
        n <= m.spec_height(),
        0 <= q < m.spec_height(),
        m.row(q)[COL_QUERY as int] == v,
        m.row(q)[COL_QUERY_FLAG as int] == 1,
    ensures
        0 <= bus_total(m, v, n) <= n,
        q < n ==> bus_total(m, v, n) >= 1,
    decreases n,
{
    if n > 0 {
        let rule = |w: Window| demo_rules(w);
        let r = n - 1;
        lemma_total_beyond(m, v, (n - 1) as nat, q);
        lemma_row_count(m.row(r), v);
        table_is_bounded(m, r);
        lemma_row_canonical(m, r);
        assert(rule(m.window(r, Seq::empty(), Seq::empty())));
        bool_check_is_boolean(m.row(r)[COL_QUERY_FLAG as int] as int);
    }
}

/// A trace that meets the constraints and balances asks only for values below
/// its height: with 256 rows, only for bytes. No multiplicities can make up
/// for a query beyond the table.
pub proof fn balanced_queries_are_in_range(m: RowMajorMatrix, q: int)
    requires
        m.wf(),
        m.width == WIDTH,
        m.spec_height() < p(),
        m.satisfies(|w: Window| demo_rules(w)),
        balanced(m),
        0 <= q < m.spec_height(),
        m.row(q)[COL_QUERY_FLAG as int] == 1,
    ensures
        m.row(q)[COL_QUERY as int] < m.spec_height(),
{
    let v = m.row(q)[COL_QUERY as int] as int;
    if v >= m.spec_height() {
        let h = m.spec_height();
        lemma_total_beyond(m, v, h, q);
        assert(is_zero(bus_total(m, v, h)));
        lemma_zero_small(bus_total(m, v, h));
    }
}

/// The first queries.
proof fn lemma_count_step(queries: Seq<u32>, v: int, n: int)
    requires
        0 <= n < queries.len(),
    ensures
        count_eq(queries.take(n + 1), v) == count_eq(queries.take(n), v) + if queries[n] == v {
            1nat
        } else {
            0nat
        },
{
    assert(queries.take(n + 1).drop_last() =~= queries.take(n));
}

/// What the first rows of a built trace ask of a value.
proof fn lemma_built_total(
    m: RowMajorMatrix,
    h: nat,
    queries: Seq<u32>,
    padding: u32,
    v: int,
    n: nat,
)
    requires
        trace_runs(m, h, queries, padding),
        n <= h,
        queries.len() < p(),
    ensures
        bus_total(m, v, n) == count_eq(
            queries.take(
                if n < queries.len() {
                    n as int
                } else {
                    queries.len() as int
                },
            ),
            v,
        ) - (if 0 <= v < 256 && v < n {
            count_eq(queries, v) as int
        } else {
            0
        }),
    decreases n,
{
    if n == 0 {
        assert(queries.take(0) =~= Seq::empty());
    } else {
        let r = n - 1;
        lemma_built_total(m, h, queries, padding, v, (n - 1) as nat);
        lemma_row_count(m.row(r), v);
        assert(row_matches(m.row(r), r, queries, padding));
        lemma_count_bound(queries, r);
        lemma_enc_small(count_eq(queries, r) as int);
        if r < queries.len() {
            lemma_count_step(queries, v, r);
        }
    }
}

/// The trace of queries that the table covers, one for each row at most, meets
/// the constraints and balances.
pub proof fn in_range_queries_balance(
    m: RowMajorMatrix,
    n: nat,
    queries: Seq<u32>,
    padding: u32,
)
    requires
        trace_runs(m, n, queries, padding),
        queries.len() <= n,
        n < p(),
        forall|i: int| 0 <= i < queries.len() ==> (#[trigger] queries[i]) < 256 && queries[i] < n,
    ensures
        m.satisfies(|w: Window| demo_rules(w)),
        balanced(m),
{
    let rule = |w: Window| demo_rules(w);
    lemma_enc_small(0);
    assert(is_bool(0) && is_bool(1)) by {
        assert(0 * (0 - 1) == 0);
        assert(1 * (1 - 1) == 0);
    }
    assert forall|r: int| 0 <= r < m.spec_height() implies rule(
        #[trigger] m.window(r, Seq::empty(), Seq::empty()),
    ) by {
        assert(row_matches(m.row(r), r, queries, padding));
        if r + 1 < m.spec_height() {
            assert(row_matches(m.row(r + 1), r + 1, queries, padding));
            let d = m.row(r + 1)[COL_TABLE as int] - m.row(r)[COL_TABLE as int];
            assert(d * (d - 1) == 0) by (nonlinear_arith)
                requires
                    d == 0 || d == 1,
            ;
        }
    }
    assert forall|v: int| is_zero(#[trigger] bus_total(m, v, m.spec_height())) by {
        lemma_built_total(m, n, queries, padding, v, n);
        assert(queries.take(queries.len() as int) =~= queries);
        if !(0 <= v < 256 && v < n) {
            lemma_count_absent(queries, v, n as int);
        }
    }
}

/// A value that no query has is not counted.
proof fn lemma_count_absent(queries: Seq<u32>, v: int, n: int)
    requires
        forall|i: int| 0 <= i < queries.len() ==> (#[trigger] queries[i]) < 256 && queries[i] < n,
        !(0 <= v < 256 && v < n),
    ensures
        count_eq(queries, v) == 0,
    decreases queries.len(),
{
    if queries.len() > 0 {
        let rest = queries.drop_last();
        assert forall|i: int| 0 <= i < rest.len() implies (#[trigger] rest[i]) < 256 && rest[i]
            < n by {
            assert(rest[i] == queries[i]);
        }
        lemma_count_absent(rest, v, n);
        assert(queries[queries.len() - 1] < 256);
    }
}

} // verus!
