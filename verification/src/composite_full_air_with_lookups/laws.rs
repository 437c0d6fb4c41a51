//! What balanced buses say of a composite trace.

use vstd::prelude::*;

use crate::bus::laws::{
    asks, balanced, balanced_query_is_listed, lemma_count_concat, lemma_count_foreign,
    lemma_count_queries, lemma_count_table, occurrences, reduced, single_queries, weighted_count,
};
use crate::bus::BusEntry;
use crate::composite_full_air_with_lookups::bus_emit::{
    composite_entries, conversion_query, cv_routing_entries, i8u8_entries, irange7p1_entries,
    irange8_entries, message_queries, noised_packed_entries, operand_queries, operand_slice,
    slice_freq, store_entries, stored_slice, tagged_words, urange13_entries, urange8_entries,
};
use crate::composite_layout::{
    AB_ID_LIMBS_START, A_ID, A_NOISED_START, A_NOISED_UNPACK_START, B_ID, B_NOISED_START,
    B_NOISED_UNPACK_START, CV_IN_START, CV_OR_TWEAK_PREP, CV_OUT_FREQ, CV_OUT_START, I8U8_FREQ,
    I8U8_TABLE, IRANGE7P1_FREQ, IRANGE7P1_TABLE, IRANGE8_FREQ, IRANGE8_TABLE, IS_CV_IN, IS_MSG_MAT,
    IS_RESET_CUMSUM, IS_UPDATE_CUMSUM, MAT_FREQ, MAT_ID, MAT_ID_LIMBS_START, MAT_UNPACK_START,
    NOISED_PACKED_START, NOISE_UNPACK_START, STARK_ROW_IDX, TOTAL_TRACE_WIDTH, UINT8_DATA_START,
    URANGE13_FREQ, URANGE13_TABLE, URANGE8_FREQ, URANGE8_TABLE,
};
use crate::composite_lookups::{
    bus_names, bus_names_are_distinct, BUS_CV_ROUTING, BUS_I8U8, BUS_IRANGE7P1, BUS_IRANGE8,
    BUS_NOISED_PACKED, BUS_URANGE13, BUS_URANGE8,
};
use crate::field::{enc, is_zero, lemma_enc_small, p};
use crate::matrix::{lemma_row_canonical, RowMajorMatrix};

verus! {

/// Interactions of one row with the buses.
pub open spec fn row_interactions() -> int {
    294
}

/// Everything that the first rows of a trace send to and receive from the
/// buses, keys taken as field elements.
pub open spec fn trace_entries(m: RowMajorMatrix, n: nat) -> Seq<BusEntry>
    decreases n,
{
    if n == 0 {
        Seq::empty()
    } else {
        trace_entries(m, (n - 1) as nat) + composite_entries(m.row(n - 1)).map_values(
            |e: BusEntry| reduced(e),
        )
    }
}

/// The flags that switch queries on are `0` or `1`, and no row both resets and
/// updates.
pub open spec fn query_flags_ok(s: Seq<u64>) -> bool {
    &&& s[IS_RESET_CUMSUM as int] + s[IS_UPDATE_CUMSUM as int] <= 1
    &&& s[IS_MSG_MAT as int] <= 1
    &&& s[IS_CV_IN as int] <= 1
}

/// A composite trace with boolean query flags, short enough for its queries to
/// be counted in the field.
pub open spec fn countable(m: RowMajorMatrix) -> bool {
    &&& m.wf()
    &&& m.width == TOTAL_TRACE_WIDTH
    &&& m.spec_height() * row_interactions() < p()
    &&& forall|r: int| 0 <= r < m.spec_height() ==> query_flags_ok(#[trigger] m.row(r))
}

/// The queries of one row are made once or not at all.
proof fn lemma_row_entries(s: Seq<u64>)
    requires
        query_flags_ok(s),
    ensures
        composite_entries(s).len() == row_interactions(),
        single_queries(composite_entries(s)),
{
    let e = composite_entries(s);
    assert forall|i: int| 0 <= i < e.len() && (#[trigger] e[i]).weight != 0 implies e[i].count == 0
        || e[i].count == 1 by {
        if i < 2 {
            assert(e[i] == urange8_entries(s)[i]);
        } else if i < 9 {
            assert(e[i] == urange13_entries(s)[i - 2]);
        } else if i < 138 {
            assert(e[i] == irange7p1_entries(s)[i - 9]);
        } else if i < 203 {
            assert(e[i] == irange8_entries(s)[i - 138]);
        } else if i < 268 {
            assert(e[i] == i8u8_entries(s)[i - 203]);
        } else if i < 292 {
            assert(e[i] == noised_packed_entries(s)[i - 268]);
        } else {
            assert(e[i] == cv_routing_entries(s)[i - 292]);
        }
    }
}

/// The entries of a trace: how many, and that each query is made at most once.
proof fn lemma_trace_entries(m: RowMajorMatrix, n: nat)
    requires
        forall|r: int| 0 <= r < n ==> query_flags_ok(#[trigger] m.row(r)),
    ensures
        trace_entries(m, n).len() == n * row_interactions(),
        single_queries(trace_entries(m, n)),
    decreases n,
{
    if n > 0 {
        let k = (n - 1) as nat;
        let before = trace_entries(m, k);
        let here = composite_entries(m.row(n - 1));
        let e = trace_entries(m, n);
        lemma_trace_entries(m, k);
        assert(n * 294 == k * 294 + 294);
        lemma_row_entries(m.row(n - 1));
        assert forall|i: int|
            0 <= i < e.len() && (#[trigger] e[i]).weight != 0 implies e[i].count == 0
            || e[i].count == 1 by {
            if i < before.len() {
                assert(e[i] == before[i]);
            } else {
                assert(e[i] == reduced(here[i - before.len()]));
            }
        }
    }
}

/// An entry of a row is among those of the trace.
proof fn lemma_place(m: RowMajorMatrix, n: nat, r: int, i: int) -> (j: int)
    requires
        0 <= r < n,
        0 <= i < composite_entries(m.row(r)).len(),
    ensures
        0 <= j < trace_entries(m, n).len(),
        trace_entries(m, n)[j] == reduced(composite_entries(m.row(r))[i]),
    decreases n,
{
    let k = (n - 1) as nat;
    let before = trace_entries(m, k);
    if r == n - 1 {
        let j = before.len() + i;
        assert(trace_entries(m, n)[j] == composite_entries(m.row(r)).map_values(
            |e: BusEntry| reduced(e),
        )[i]);
        j
    } else {
        let j = lemma_place(m, k, r, i);
        assert(trace_entries(m, n)[j] == before[j]);
        j
    }
}

/// Every entry of a trace comes from a row.
proof fn lemma_origin(m: RowMajorMatrix, n: nat, j: int) -> (o: (int, int))
    requires
        0 <= j < trace_entries(m, n).len(),
    ensures
        0 <= o.0 < n,
        0 <= o.1 < composite_entries(m.row(o.0)).len(),
        trace_entries(m, n)[j] == reduced(composite_entries(m.row(o.0))[o.1]),
    decreases n,
{
    let k = (n - 1) as nat;
    let before = trace_entries(m, k);
    if j < before.len() {
        assert(trace_entries(m, n)[j] == before[j]);
        lemma_origin(m, k, j)
    } else {
        let i = j - before.len();
        assert(trace_entries(m, n)[j] == composite_entries(m.row(n - 1)).map_values(
            |e: BusEntry| reduced(e),
        )[i]);
        (n - 1, i)
    }
}

/// The table entry of a row that a query of another row finds.
proof fn lemma_listed(m: RowMajorMatrix, bus: &'static str, r: int, i: int) -> (o: (int, int))
    requires
        countable(m),
        balanced(trace_entries(m, m.spec_height()), bus),
        0 <= r < m.spec_height(),
        0 <= i < row_interactions(),
        composite_entries(m.row(r))[i].bus == bus@,
        composite_entries(m.row(r))[i].weight != 0,
        composite_entries(m.row(r))[i].count == 1,
    ensures
        0 <= o.0 < m.spec_height(),
        0 <= o.1 < row_interactions(),
        composite_entries(m.row(o.0)).len() == row_interactions(),
        composite_entries(m.row(o.0))[o.1].bus == bus@,
        composite_entries(m.row(o.0))[o.1].weight == 0,
        !is_zero(composite_entries(m.row(o.0))[o.1].count),
        reduced(composite_entries(m.row(o.0))[o.1]).key == reduced(
            composite_entries(m.row(r))[i],
        ).key,
{
    let n = m.spec_height();
    let e = trace_entries(m, n);
    lemma_trace_entries(m, n);
    lemma_row_entries(m.row(r));
    let q = lemma_place(m, n, r, i);
    balanced_query_is_listed(e, bus, q);
    let j = choose|j: int|
        0 <= j < e.len() && asks(#[trigger] e[j], bus, e[q].key) && e[j].weight == 0 && !is_zero(
            e[j].count,
        );
    let o = lemma_origin(m, n, j);
    lemma_row_entries(m.row(o.0));
    o
}

/// The bus of each entry of a row.
proof fn lemma_entry_bus(s: Seq<u64>, i: int)
    requires
        0 <= i < row_interactions(),
        query_flags_ok(s),
    ensures
        composite_entries(s)[i].bus == BUS_URANGE8@ <==> 0 <= i < 2,
        0 <= i < 2 ==> composite_entries(s)[i] == urange8_entries(s)[i - 0],
        composite_entries(s)[i].bus == BUS_URANGE13@ <==> 2 <= i < 9,
        2 <= i < 9 ==> composite_entries(s)[i] == urange13_entries(s)[i - 2],
        composite_entries(s)[i].bus == BUS_IRANGE7P1@ <==> 9 <= i < 138,
        9 <= i < 138 ==> composite_entries(s)[i] == irange7p1_entries(s)[i - 9],
        composite_entries(s)[i].bus == BUS_IRANGE8@ <==> 138 <= i < 203,
        138 <= i < 203 ==> composite_entries(s)[i] == irange8_entries(s)[i - 138],
        composite_entries(s)[i].bus == BUS_I8U8@ <==> 203 <= i < 268,
        203 <= i < 268 ==> composite_entries(s)[i] == i8u8_entries(s)[i - 203],
        composite_entries(s)[i].bus == BUS_NOISED_PACKED@ <==> 268 <= i < 292,
        268 <= i < 292 ==> composite_entries(s)[i] == noised_packed_entries(s)[i - 268],
        composite_entries(s)[i].bus == BUS_CV_ROUTING@ <==> 292 <= i < 294,
        292 <= i < 294 ==> composite_entries(s)[i] == cv_routing_entries(s)[i - 292],
{
    let e = composite_entries(s);
    let names = bus_names();
    lemma_row_entries(s);
    bus_names_are_distinct();
    assert(names[0] == BUS_URANGE8);
    assert(names[1] == BUS_URANGE13);
    assert(names[2] == BUS_IRANGE7P1);
    assert(names[3] == BUS_IRANGE8);
    assert(names[4] == BUS_I8U8);
    assert(names[5] == BUS_NOISED_PACKED);
    assert(names[6] == BUS_CV_ROUTING);
    let k: int = if i < 2 {
        assert(e[i] == urange8_entries(s)[i]);
        0
    } else if i < 9 {
        assert(e[i] == urange13_entries(s)[i - 2]);
        1
    } else if i < 138 {
        assert(e[i] == irange7p1_entries(s)[i - 9]);
        2
    } else if i < 203 {
        assert(e[i] == irange8_entries(s)[i - 138]);
        3
    } else if i < 268 {
        assert(e[i] == i8u8_entries(s)[i - 203]);
        4
    } else if i < 292 {
        assert(e[i] == noised_packed_entries(s)[i - 268]);
        5
    } else {
        assert(e[i] == cv_routing_entries(s)[i - 292]);
        6
    };
    assert(e[i].bus == names[k]@);
    assert forall|l: int| 0 <= l < 7 && l != k implies (#[trigger] names[l])@ != e[i].bus by {
        if l < k {
            assert(names[l]@ != names[k]@);
        } else {
            assert(names[k]@ != names[l]@);
        }
    }
}

/// Two keys that are equal in the field, at one place.
proof fn lemma_key_at(a: BusEntry, b: BusEntry, k: int)
    requires
        reduced(a).key == reduced(b).key,
        0 <= k < a.key.len(),
    ensures
        a.key.len() == b.key.len(),
        enc(a.key[k]) == enc(b.key[k]),
{
    assert(reduced(a).key.len() == a.key.len() && reduced(b).key.len() == b.key.len());
    assert(reduced(a).key[k] == enc(a.key[k]));
    assert(reduced(b).key[k] == enc(b.key[k]));
}

/// A row reads operand slices.
pub open spec fn reads_operands(s: Seq<u64>) -> bool {
    s[IS_RESET_CUMSUM as int] + s[IS_UPDATE_CUMSUM as int] == 1
}

/// A row stores a slice under an identifier, and the slice is read.
pub open spec fn stores(s: Seq<u64>, k: int, id: u64, low: u64, high: u64) -> bool {
    &&& 0 <= k < 8
    &&& enc(s[MAT_ID as int] + k) == id
    &&& s[NOISED_PACKED_START + 2 * k] == low
    &&& s[NOISED_PACKED_START + 2 * k + 1] == high
    &&& s[MAT_FREQ + k] != 0
    &&& k == 0 || s[IS_MSG_MAT as int] == 1
}

/// The slice that an operand query asks for is stored.
proof fn lemma_slice_is_stored(
    m: RowMajorMatrix,
    r: int,
    i: int,
    id: int,
    words: int,
    j: int,
) -> (o: (int, int))
    requires
        countable(m),
        balanced(trace_entries(m, m.spec_height()), BUS_NOISED_PACKED),
        0 <= r < m.spec_height(),
        reads_operands(m.row(r)),
        0 <= j < 4,
        i == 276 + j && id == A_ID && words == A_NOISED_START || i == 280 + j && id == B_ID
            && words == B_NOISED_START,
    ensures
        0 <= o.0 < m.spec_height(),
        stores(
            m.row(o.0),
            o.1,
            m.row(r)[id + j],
            m.row(r)[words + 2 * j],
            m.row(r)[words + 2 * j + 1],
        ),
{
    let s = m.row(r);
    lemma_row_canonical(m, r);
    lemma_entry_bus(s, i);
    let q = composite_entries(s)[i];
    assert(q == noised_packed_entries(s)[i - 268]);
    assert(q.key == operand_slice(s, id, words, j));
    let o = lemma_listed(m, BUS_NOISED_PACKED, r, i);
    let t = m.row(o.0);
    lemma_row_canonical(m, o.0);
    lemma_entry_bus(t, o.1);
    let e = composite_entries(t)[o.1];
    let k = o.1 - 268;
    assert(e == noised_packed_entries(t)[k]);
    assert(k < 8);
    assert(e.key == stored_slice(t, k));
    assert(e.count == -slice_freq(t, k));
    lemma_key_at(e, q, 0);
    lemma_key_at(e, q, 1);
    lemma_key_at(e, q, 2);
    lemma_enc_small(s[id + j] as int);
    lemma_enc_small(s[words + 2 * j] as int);
    lemma_enc_small(s[words + 2 * j + 1] as int);
    lemma_enc_small(t[NOISED_PACKED_START + 2 * k] as int);
    lemma_enc_small(t[NOISED_PACKED_START + 2 * k + 1] as int);
    if is_zero(slice_freq(t, k)) {
        crate::field::lemma_zero_mul(slice_freq(t, k), -1);
        assert(slice_freq(t, k) * -1 == -slice_freq(t, k));
    }
    lemma_enc_small(0);
    let freq = t[MAT_FREQ + k] as int;
    assert(freq * 0 == 0 && 0 * t[IS_MSG_MAT as int] == 0);
    assert(query_flags_ok(t));
    (o.0, k)
}

/// On a balanced bus every operand slice that a row reads was stored by some
/// row, under the identifier and with the words that the reading row names.
pub proof fn operand_reads_are_stored(m: RowMajorMatrix, r: int, j: int)
    requires
        countable(m),
        balanced(trace_entries(m, m.spec_height()), BUS_NOISED_PACKED),
        0 <= r < m.spec_height(),
        reads_operands(m.row(r)),
        0 <= j < 4,
    ensures
        exists|t: int, k: int|
            0 <= t < m.spec_height() && #[trigger] stores(
                m.row(t),
                k,
                m.row(r)[A_ID + j],
                m.row(r)[A_NOISED_START + 2 * j],
                m.row(r)[A_NOISED_START + 2 * j + 1],
            ),
        exists|t: int, k: int|
            0 <= t < m.spec_height() && #[trigger] stores(
                m.row(t),
                k,
                m.row(r)[B_ID + j],
                m.row(r)[B_NOISED_START + 2 * j],
                m.row(r)[B_NOISED_START + 2 * j + 1],
            ),
{
    let a = lemma_slice_is_stored(m, r, 276 + j, A_ID as int, A_NOISED_START as int, j);
    let b = lemma_slice_is_stored(m, r, 280 + j, B_ID as int, B_NOISED_START as int, j);
}

/// On a balanced bus a chaining value that a row takes over is the one that
/// the row of the named index puts out.
pub proof fn taken_value_was_put_out(m: RowMajorMatrix, r: int)
    requires
        countable(m),
        balanced(trace_entries(m, m.spec_height()), BUS_CV_ROUTING),
        0 <= r < m.spec_height(),
        m.row(r)[IS_CV_IN as int] == 1,
    ensures
        exists|t: int|
            0 <= t < m.spec_height() && (#[trigger] m.row(t))[STARK_ROW_IDX as int] == m.row(
                r,
            )[CV_OR_TWEAK_PREP as int] && m.row(t).subrange(
                CV_OUT_START as int,
                CV_OUT_START + 8,
            ) == m.row(r).subrange(CV_IN_START as int, CV_IN_START + 8)
                && m.row(t)[CV_OUT_FREQ as int] != 0,
{
    let s = m.row(r);
    lemma_row_canonical(m, r);
    lemma_entry_bus(s, 293);
    let q = composite_entries(s)[293];
    assert(q.key == tagged_words(s, CV_OR_TWEAK_PREP as int, CV_IN_START as int, 8));
    let o = lemma_listed(m, BUS_CV_ROUTING, r, 293);
    let t = m.row(o.0);
    lemma_row_canonical(m, o.0);
    lemma_entry_bus(t, o.1);
    assert(o.1 == 292);
    let e = composite_entries(t)[292];
    assert(e.key == tagged_words(t, STARK_ROW_IDX as int, CV_OUT_START as int, 8));
    lemma_key_at(e, q, 0);
    lemma_enc_small(s[CV_OR_TWEAK_PREP as int] as int);
    lemma_enc_small(t[STARK_ROW_IDX as int] as int);
    let out = t.subrange(CV_OUT_START as int, CV_OUT_START + 8);
    let taken = s.subrange(CV_IN_START as int, CV_IN_START + 8);
    assert forall|k: int| 0 <= k < 8 implies out[k] == taken[k] by {
        lemma_key_at(e, q, k + 1);
        assert(e.key[k + 1] == t[CV_OUT_START + k]);
        assert(q.key[k + 1] == s[CV_IN_START + k]);
        lemma_enc_small(t[CV_OUT_START + k] as int);
        lemma_enc_small(s[CV_IN_START + k] as int);
    }
    assert(out =~= taken);
}

/// On a balanced bus every limb of a row's identifiers is in the limb table.
pub proof fn limbs_are_in_table(m: RowMajorMatrix, r: int, c: int)
    requires
        countable(m),
        balanced(trace_entries(m, m.spec_height()), BUS_URANGE13),
        0 <= r < m.spec_height(),
        MAT_ID_LIMBS_START <= c < MAT_ID_LIMBS_START + 2 || AB_ID_LIMBS_START <= c < AB_ID_LIMBS_START + 4,
    ensures
        exists|t: int|
            0 <= t < m.spec_height() && (#[trigger] m.row(t))[URANGE13_TABLE as int] == m.row(r)[c],
{
    let s = m.row(r);
    lemma_row_canonical(m, r);
    let i = if c < MAT_ID_LIMBS_START + 2 && MAT_ID_LIMBS_START <= c {
        3 + (c - MAT_ID_LIMBS_START)
    } else {
        5 + (c - AB_ID_LIMBS_START)
    };
    lemma_entry_bus(s, i);
    let q = composite_entries(s)[i];
    assert(q == urange13_entries(s)[i - 2]);
    assert(q.key =~= seq![s[c] as int]);
    let o = lemma_listed(m, BUS_URANGE13, r, i);
    let t = m.row(o.0);
    lemma_row_canonical(m, o.0);
    lemma_entry_bus(t, o.1);
    assert(o.1 == 2);
    lemma_key_at(composite_entries(t)[2], q, 0);
    lemma_enc_small(s[c] as int);
    lemma_enc_small(t[URANGE13_TABLE as int] as int);
}

/// On a balanced bus every noise byte and matrix byte is in the noise table.
pub proof fn input_bytes_are_in_table(m: RowMajorMatrix, r: int, c: int)
    requires
        countable(m),
        balanced(trace_entries(m, m.spec_height()), BUS_IRANGE7P1),
        0 <= r < m.spec_height(),
        NOISE_UNPACK_START <= c < NOISE_UNPACK_START + 64 || MAT_UNPACK_START <= c < MAT_UNPACK_START + 64,
    ensures
        exists|t: int|
            0 <= t < m.spec_height() && (#[trigger] m.row(t))[IRANGE7P1_TABLE as int] == m.row(r)[c],
{
    let s = m.row(r);
    lemma_row_canonical(m, r);
    let i = if c < NOISE_UNPACK_START + 64 && NOISE_UNPACK_START <= c {
        10 + (c - NOISE_UNPACK_START)
    } else {
        74 + (c - MAT_UNPACK_START)
    };
    lemma_entry_bus(s, i);
    let q = composite_entries(s)[i];
    assert(q == irange7p1_entries(s)[i - 9]);
    assert(q.key =~= seq![s[c] as int]);
    let o = lemma_listed(m, BUS_IRANGE7P1, r, i);
    let t = m.row(o.0);
    lemma_row_canonical(m, o.0);
    lemma_entry_bus(t, o.1);
    assert(o.1 == 9);
    lemma_key_at(composite_entries(t)[9], q, 0);
    lemma_enc_small(s[c] as int);
    lemma_enc_small(t[IRANGE7P1_TABLE as int] as int);
}

/// On a balanced bus every operand byte is in the signed-byte table.
pub proof fn operand_bytes_are_in_table(m: RowMajorMatrix, r: int, c: int)
    requires
        countable(m),
        balanced(trace_entries(m, m.spec_height()), BUS_IRANGE8),
        0 <= r < m.spec_height(),
        A_NOISED_UNPACK_START <= c < A_NOISED_UNPACK_START + 32 || B_NOISED_UNPACK_START <= c < B_NOISED_UNPACK_START + 32,
    ensures
        exists|t: int|
            0 <= t < m.spec_height() && (#[trigger] m.row(t))[IRANGE8_TABLE as int] == m.row(r)[c],
{
    let s = m.row(r);
    lemma_row_canonical(m, r);
    let i = if c < A_NOISED_UNPACK_START + 32 && A_NOISED_UNPACK_START <= c {
        139 + (c - A_NOISED_UNPACK_START)
    } else {
        171 + (c - B_NOISED_UNPACK_START)
    };
    lemma_entry_bus(s, i);
    let q = composite_entries(s)[i];
    assert(q == irange8_entries(s)[i - 138]);
    assert(q.key =~= seq![s[c] as int]);
    let o = lemma_listed(m, BUS_IRANGE8, r, i);
    let t = m.row(o.0);
    lemma_row_canonical(m, o.0);
    lemma_entry_bus(t, o.1);
    assert(o.1 == 138);
    lemma_key_at(composite_entries(t)[138], q, 0);
    lemma_enc_small(s[c] as int);
    lemma_enc_small(t[IRANGE8_TABLE as int] as int);
}

/// On a balanced bus the first message byte of a matrix message row is in the
/// byte table.
pub proof fn message_byte_is_in_table(m: RowMajorMatrix, r: int)
    requires
        countable(m),
        balanced(trace_entries(m, m.spec_height()), BUS_URANGE8),
        0 <= r < m.spec_height(),
        m.row(r)[IS_MSG_MAT as int] == 1,
    ensures
        exists|t: int|
            0 <= t < m.spec_height() && (#[trigger] m.row(t))[URANGE8_TABLE as int] == m.row(
                r,
            )[UINT8_DATA_START as int],
{
    let s = m.row(r);
    lemma_row_canonical(m, r);
    lemma_entry_bus(s, 1);
    let o = lemma_listed(m, BUS_URANGE8, r, 1);
    let t = m.row(o.0);
    lemma_row_canonical(m, o.0);
    lemma_entry_bus(t, o.1);
    assert(o.1 == 0);
    lemma_key_at(composite_entries(t)[0], composite_entries(s)[1], 0);
    lemma_enc_small(s[UINT8_DATA_START as int] as int);
    lemma_enc_small(t[URANGE8_TABLE as int] as int);
}

/// On a balanced bus every matrix byte of a matrix message row, with its
/// message byte, is in the conversion table.
pub proof fn conversions_are_in_table(m: RowMajorMatrix, r: int, i: int)
    requires
        countable(m),
        balanced(trace_entries(m, m.spec_height()), BUS_I8U8),
        0 <= r < m.spec_height(),
        m.row(r)[IS_MSG_MAT as int] == 1,
        0 <= i < 64,
    ensures
        exists|t: int|
            0 <= t < m.spec_height() && (#[trigger] m.row(t))[I8U8_TABLE as int] == enc(
                m.row(r)[MAT_UNPACK_START + i] * 256 + m.row(r)[UINT8_DATA_START + i],
            ),
{
    let s = m.row(r);
    lemma_entry_bus(s, 204 + i);
    let q = composite_entries(s)[204 + i];
    assert(q == i8u8_entries(s)[i + 1]);
    assert(q == conversion_query(s, i));
    let o = lemma_listed(m, BUS_I8U8, r, 204 + i);
    let t = m.row(o.0);
    lemma_row_canonical(m, o.0);
    lemma_entry_bus(t, o.1);
    assert(o.1 == 203);
    lemma_key_at(composite_entries(t)[203], q, 0);
    lemma_enc_small(t[I8U8_TABLE as int] as int);
}

/// What a row does on one bus is what it does on all of them, counted for that
/// bus: the other buses' entries do not count.
proof fn lemma_own_entries(s: Seq<u64>, key: Seq<int>, weight: u32)
    ensures
        weighted_count(composite_entries(s), BUS_URANGE8, key, weight) == weighted_count(
            urange8_entries(s),
            BUS_URANGE8,
            key,
            weight,
        ),
        weighted_count(composite_entries(s), BUS_URANGE13, key, weight) == weighted_count(
            urange13_entries(s),
            BUS_URANGE13,
            key,
            weight,
        ),
        weighted_count(composite_entries(s), BUS_IRANGE7P1, key, weight) == weighted_count(
            irange7p1_entries(s),
            BUS_IRANGE7P1,
            key,
            weight,
        ),
        weighted_count(composite_entries(s), BUS_IRANGE8, key, weight) == weighted_count(
            irange8_entries(s),
            BUS_IRANGE8,
            key,
            weight,
        ),
        weighted_count(composite_entries(s), BUS_I8U8, key, weight) == weighted_count(
            i8u8_entries(s),
            BUS_I8U8,
            key,
            weight,
        ),
        weighted_count(composite_entries(s), BUS_NOISED_PACKED, key, weight) == weighted_count(
            noised_packed_entries(s),
            BUS_NOISED_PACKED,
            key,
            weight,
        ),
        weighted_count(composite_entries(s), BUS_CV_ROUTING, key, weight) == weighted_count(
            cv_routing_entries(s),
            BUS_CV_ROUTING,
            key,
            weight,
        ),
{
    let names = bus_names();
    bus_names_are_distinct();
    assert(names[0] == BUS_URANGE8);
    assert(names[1] == BUS_URANGE13);
    assert(names[2] == BUS_IRANGE7P1);
    assert(names[3] == BUS_IRANGE8);
    assert(names[4] == BUS_I8U8);
    assert(names[5] == BUS_NOISED_PACKED);
    assert(names[6] == BUS_CV_ROUTING);
    let parts = seq![
        urange8_entries(s),
        urange13_entries(s),
        irange7p1_entries(s),
        irange8_entries(s),
        i8u8_entries(s),
        noised_packed_entries(s),
        cv_routing_entries(s),
    ];
    assert forall|p: int, i: int|
        0 <= p < 7 && 0 <= i < parts[p].len() implies (#[trigger] parts[p][i]).bus
        == names[p]@ by {
        assert(p == 0 || p == 1 || p == 2 || p == 3 || p == 4 || p == 5 || p == 6);
    }
    assert forall|p: int, q: int| 0 <= p < 7 && 0 <= q < 7 && p != q implies #[trigger] weighted_count(
        parts[p],
        names[q],
        key,
        weight,
    ) == 0 by {
        assert forall|i: int| 0 <= i < parts[p].len() implies (#[trigger] parts[p][i]).bus
            != names[q]@ by {
            if p < q {
                assert(names[p]@ != names[q]@);
            } else {
                assert(names[q]@ != names[p]@);
            }
        }
        lemma_count_foreign(parts[p], names[q], key, weight);
    }
    assert forall|q: int| 0 <= q < 7 implies weighted_count(
        composite_entries(s),
        #[trigger] names[q],
        key,
        weight,
    ) == weighted_count(parts[q], names[q], key, weight) by {
        lemma_seven_parts(parts, names[q], key, weight);
        assert(composite_entries(s) == parts[0] + parts[1] + parts[2] + parts[3] + parts[4]
            + parts[5] + parts[6]);
        assert(forall|p: int| 0 <= p < 7 && p != q ==> #[trigger] weighted_count(
            parts[p],
            names[q],
            key,
            weight,
        ) == 0);
        assert(q == 0 || q == 1 || q == 2 || q == 3 || q == 4 || q == 5 || q == 6);
    }
}

/// Seven lists of entries add up.
proof fn lemma_seven_parts(
    parts: Seq<Seq<BusEntry>>,
    bus: &'static str,
    key: Seq<int>,
    weight: u32,
)
    requires
        parts.len() == 7,
    ensures
        weighted_count(
            parts[0] + parts[1] + parts[2] + parts[3] + parts[4] + parts[5] + parts[6],
            bus,
            key,
            weight,
        ) == weighted_count(parts[0], bus, key, weight) + weighted_count(
            parts[1],
            bus,
            key,
            weight,
        ) + weighted_count(parts[2], bus, key, weight) + weighted_count(
            parts[3],
            bus,
            key,
            weight,
        ) + weighted_count(parts[4], bus, key, weight) + weighted_count(
            parts[5],
            bus,
            key,
            weight,
        ) + weighted_count(parts[6], bus, key, weight),
{
    let p1 = parts[0] + parts[1];
    let p2 = p1 + parts[2];
    let p3 = p2 + parts[3];
    let p4 = p3 + parts[4];
    let p5 = p4 + parts[5];
    lemma_count_concat(parts[0], parts[1], bus, key, weight);
    lemma_count_concat(p1, parts[2], bus, key, weight);
    lemma_count_concat(p2, parts[3], bus, key, weight);
    lemma_count_concat(p3, parts[4], bus, key, weight);
    lemma_count_concat(p4, parts[5], bus, key, weight);
    lemma_count_concat(p5, parts[6], bus, key, weight);
}

/// The keys that consist of one cell each, from a column on.
pub open spec fn cell_keys(s: Seq<u64>, start: int, n: nat) -> Seq<Seq<int>> {
    Seq::new(n, |i: int| seq![s[start + i] as int])
}

/// A table entry, some queries, and some more.
proof fn lemma_three_parts(
    entries: Seq<BusEntry>,
    bus: &'static str,
    listed: Seq<int>,
    freq: int,
    first: Seq<Seq<int>>,
    second: Seq<Seq<int>>,
    count: int,
    key: Seq<int>,
)
    requires
        entries.len() == 1 + first.len() + second.len(),
        entries[0] == (BusEntry { bus: bus@, key: listed, count: -freq, weight: 0 }),
        forall|i: int|
            0 <= i < first.len() ==> entries[1 + i] == (BusEntry {
                bus: bus@,
                key: #[trigger] first[i],
                count,
                weight: 1,
            }),
        forall|i: int|
            0 <= i < second.len() ==> entries[1 + first.len() + i] == (BusEntry {
                bus: bus@,
                key: #[trigger] second[i],
                count,
                weight: 1,
            }),
    ensures
        weighted_count(entries, bus, key, 1) == count * occurrences(first, key) + count
            * occurrences(second, key),
        weighted_count(entries, bus, key, 0) == if listed == key {
            -freq
        } else {
            0
        },
{
    let n = first.len() as int;
    let a = entries.subrange(0, 1);
    let b = entries.subrange(1, 1 + n);
    let c = entries.subrange(1 + n, entries.len() as int);
    assert(entries =~= a + b + c);
    assert forall|i: int| 0 <= i < b.len() implies #[trigger] b[i] == (BusEntry {
        bus: bus@,
        key: first[i],
        count,
        weight: 1,
    }) by {
        assert(first[i] == entries[1 + i].key);
    }
    assert forall|i: int| 0 <= i < c.len() implies #[trigger] c[i] == (BusEntry {
        bus: bus@,
        key: second[i],
        count,
        weight: 1,
    }) by {
        assert(second[i] == entries[1 + n + i].key);
    }
    lemma_count_table(a, bus, listed, freq, key);
    lemma_count_queries(b, bus, first, count, key);
    lemma_count_queries(c, bus, second, count, key);
    lemma_count_concat(a, b, bus, key, 1);
    lemma_count_concat(a + b, c, bus, key, 1);
    lemma_count_concat(a, b, bus, key, 0);
    lemma_count_concat(a + b, c, bus, key, 0);
}

/// What a row does on the range buses: it lists one entry of each table, as
/// often as the table's count says, and asks once for every limb of its
/// identifiers, every noise and matrix byte and every operand byte; on a matrix
/// message row it also asks for its first message byte.
pub proof fn range_entries_are_exact(s: Seq<u64>, key: Seq<int>)
    ensures
        ({
            let e = composite_entries(s);
            &&& weighted_count(e, BUS_URANGE8, key, 1) == s[IS_MSG_MAT as int] * occurrences(
                cell_keys(s, UINT8_DATA_START as int, 1),
                key,
            )
            &&& weighted_count(e, BUS_URANGE13, key, 1) == occurrences(
                cell_keys(s, MAT_ID_LIMBS_START as int, 2),
                key,
            ) + occurrences(cell_keys(s, AB_ID_LIMBS_START as int, 4), key)
            &&& weighted_count(e, BUS_IRANGE7P1, key, 1) == occurrences(
                cell_keys(s, NOISE_UNPACK_START as int, 64),
                key,
            ) + occurrences(cell_keys(s, MAT_UNPACK_START as int, 64), key)
            &&& weighted_count(e, BUS_IRANGE8, key, 1) == occurrences(
                cell_keys(s, A_NOISED_UNPACK_START as int, 32),
                key,
            ) + occurrences(cell_keys(s, B_NOISED_UNPACK_START as int, 32), key)
            &&& weighted_count(e, BUS_URANGE8, key, 0) == -s[URANGE8_FREQ as int] * occurrences(
                cell_keys(s, URANGE8_TABLE as int, 1),
                key,
            )
            &&& weighted_count(e, BUS_URANGE13, key, 0) == -s[URANGE13_FREQ as int] * occurrences(
                cell_keys(s, URANGE13_TABLE as int, 1),
                key,
            )
            &&& weighted_count(e, BUS_IRANGE7P1, key, 0) == -s[IRANGE7P1_FREQ as int]
                * occurrences(cell_keys(s, IRANGE7P1_TABLE as int, 1), key)
            &&& weighted_count(e, BUS_IRANGE8, key, 0) == -s[IRANGE8_FREQ as int] * occurrences(
                cell_keys(s, IRANGE8_TABLE as int, 1),
                key,
            )
        }),
{
    lemma_own_entries(s, key, 0);
    lemma_own_entries(s, key, 1);
    lemma_range_bus(
        urange8_entries(s),
        BUS_URANGE8,
        s,
        URANGE8_TABLE as int,
        URANGE8_FREQ as int,
        UINT8_DATA_START as int,
        1,
        0,
        0,
        s[IS_MSG_MAT as int] as int,
        key,
    );
    lemma_range_bus(
        urange13_entries(s),
        BUS_URANGE13,
        s,
        URANGE13_TABLE as int,
        URANGE13_FREQ as int,
        MAT_ID_LIMBS_START as int,
        2,
        AB_ID_LIMBS_START as int,
        4,
        1,
        key,
    );
    lemma_range_bus(
        irange7p1_entries(s),
        BUS_IRANGE7P1,
        s,
        IRANGE7P1_TABLE as int,
        IRANGE7P1_FREQ as int,
        NOISE_UNPACK_START as int,
        64,
        MAT_UNPACK_START as int,
        64,
        1,
        key,
    );
    lemma_range_bus(
        irange8_entries(s),
        BUS_IRANGE8,
        s,
        IRANGE8_TABLE as int,
        IRANGE8_FREQ as int,
        A_NOISED_UNPACK_START as int,
        32,
        B_NOISED_UNPACK_START as int,
        32,
        1,
        key,
    );
}

/// The entries of a bus that checks single cells.
proof fn lemma_range_bus(
    entries: Seq<BusEntry>,
    bus: &'static str,
    s: Seq<u64>,
    table: int,
    freq: int,
    first: int,
    n: nat,
    second: int,
    k: nat,
    count: int,
    key: Seq<int>,
)
    requires
        entries.len() == 1 + n + k,
        entries[0] == (BusEntry {
            bus: bus@,
            key: seq![s[table] as int],
            count: -(s[freq] as int),
            weight: 0,
        }),
        forall|i: int|
            0 <= i < n ==> #[trigger] entries[1 + i] == (BusEntry {
                bus: bus@,
                key: seq![s[first + i] as int],
                count,
                weight: 1,
            }),
        forall|i: int|
            0 <= i < k ==> #[trigger] entries[1 + n + i] == (BusEntry {
                bus: bus@,
                key: seq![s[second + i] as int],
                count,
                weight: 1,
            }),
    ensures
        weighted_count(entries, bus, key, 1) == count * occurrences(cell_keys(s, first, n), key)
            + count * occurrences(cell_keys(s, second, k), key),
        weighted_count(entries, bus, key, 0) == -s[freq] * occurrences(
            cell_keys(s, table, 1),
            key,
        ),
        k == 0 ==> count * occurrences(cell_keys(s, second, k), key) == 0,
{
    let a = cell_keys(s, first, n);
    let b = cell_keys(s, second, k);
    let one = cell_keys(s, table, 1);
    assert forall|i: int| 0 <= i < a.len() implies entries[1 + i] == (BusEntry {
        bus: bus@,
        key: #[trigger] a[i],
        count,
        weight: 1,
    }) by {}
    assert forall|i: int| 0 <= i < b.len() implies entries[1 + a.len() + i] == (BusEntry {
        bus: bus@,
        key: #[trigger] b[i],
        count,
        weight: 1,
    }) by {
        assert(entries[1 + n + i].key == b[i]);
    }
    lemma_three_parts(entries, bus, seq![s[table] as int], s[freq] as int, a, b, count, key);
    assert(one.drop_last() =~= Seq::empty());
    assert(occurrences(one.drop_last(), key) == 0);
    assert(one.last() == seq![s[table] as int]);
    let f = -(s[freq] as int);
    assert(f * 1 == f && f * 0 == 0);
    assert(count * 0 == 0);
    if k == 0 {
        assert(b =~= Seq::empty());
    }
}

/// What a row does on the conversion bus: it lists one entry of the table, and
/// on a matrix message row asks for each of its 64 matrix bytes, times 256, with
/// its message byte.
pub proof fn conversion_entries_are_exact(s: Seq<u64>, key: Seq<int>)
    ensures
        weighted_count(composite_entries(s), BUS_I8U8, key, 1) == s[IS_MSG_MAT as int]
            * occurrences(
            Seq::new(
                64,
                |i: int| seq![256 * s[MAT_UNPACK_START + i] + s[UINT8_DATA_START + i]],
            ),
            key,
        ),
        weighted_count(composite_entries(s), BUS_I8U8, key, 0) == -s[I8U8_FREQ as int]
            * occurrences(cell_keys(s, I8U8_TABLE as int, 1), key),
{
    let e = i8u8_entries(s);
    let count = s[IS_MSG_MAT as int] as int;
    let keys = Seq::new(64, |i: int| seq![256 * s[MAT_UNPACK_START + i] + s[UINT8_DATA_START + i]]);
    let one = cell_keys(s, I8U8_TABLE as int, 1);
    lemma_own_entries(s, key, 0);
    lemma_own_entries(s, key, 1);
    assert forall|i: int| 0 <= i < keys.len() implies e[1 + i] == (BusEntry {
        bus: BUS_I8U8@,
        key: #[trigger] keys[i],
        count,
        weight: 1,
    }) by {
        assert(e[1 + i] == conversion_query(s, i));
    }
    lemma_three_parts(
        e,
        BUS_I8U8,
        seq![s[I8U8_TABLE as int] as int],
        s[I8U8_FREQ as int] as int,
        keys,
        Seq::empty(),
        count,
        key,
    );
    assert(one.drop_last() =~= Seq::empty());
    assert(occurrences(one.drop_last(), key) == 0);
    assert(one.last() == seq![s[I8U8_TABLE as int] as int]);
    let f = -(s[I8U8_FREQ as int] as int);
    assert(f * 1 == f && f * 0 == 0);
    assert(count * 0 == 0);
}

/// What a row does on the routing bus: it lists its own chaining value under
/// its index, and asks for the one it takes over under the index it names.
pub proof fn routing_entries_are_exact(s: Seq<u64>, key: Seq<int>)
    ensures
        weighted_count(composite_entries(s), BUS_CV_ROUTING, key, 1) == if key.len() == 9 && key[0]
            == s[CV_OR_TWEAK_PREP as int] && (forall|i: int|
            0 <= i < 8 ==> #[trigger] key[1 + i] == s[CV_IN_START + i]) {
            s[IS_CV_IN as int] as int
        } else {
            0
        },
        weighted_count(composite_entries(s), BUS_CV_ROUTING, key, 0) == if key.len() == 9 && key[0]
            == s[STARK_ROW_IDX as int] && (forall|i: int|
            0 <= i < 8 ==> #[trigger] key[1 + i] == s[CV_OUT_START + i]) {
            -(s[CV_OUT_FREQ as int] as int)
        } else {
            0
        },
{
    let e = cv_routing_entries(s);
    let own = tagged_words(s, STARK_ROW_IDX as int, CV_OUT_START as int, 8);
    let taken = tagged_words(s, CV_OR_TWEAK_PREP as int, CV_IN_START as int, 8);
    let count = s[IS_CV_IN as int] as int;
    let keys = seq![taken];
    lemma_own_entries(s, key, 0);
    lemma_own_entries(s, key, 1);
    assert(e[1].key == keys[0]);
    lemma_three_parts(
        e,
        BUS_CV_ROUTING,
        own,
        s[CV_OUT_FREQ as int] as int,
        keys,
        Seq::empty(),
        count,
        key,
    );
    assert(keys.drop_last() =~= Seq::empty());
    assert(occurrences(keys.drop_last(), key) == 0);
    assert(keys.last() == taken);
    assert(count * 1 == count && count * 0 == 0);
    lemma_tagged_key(s, STARK_ROW_IDX as int, CV_OUT_START as int, key);
    lemma_tagged_key(s, CV_OR_TWEAK_PREP as int, CV_IN_START as int, key);
}

/// When a key is a tag and eight words.
proof fn lemma_tagged_key(s: Seq<u64>, tag: int, start: int, key: Seq<int>)
    ensures
        tagged_words(s, tag, start, 8) == key <==> key.len() == 9 && key[0] == s[tag] && (forall|
            i: int,
        | 0 <= i < 8 ==> #[trigger] key[1 + i] == s[start + i]),
{
    let own = tagged_words(s, tag, start, 8);
    assert forall|i: int| 0 <= i < 8 implies #[trigger] own[1 + i] == s[start + i] by {}
    if key.len() == 9 && key[0] == s[tag] && (forall|i: int|
        0 <= i < 8 ==> #[trigger] key[1 + i] == s[start + i]) {
        assert forall|j: int| 0 <= j < 9 implies own[j] == key[j] by {
            if j > 0 {
                assert(key[1 + (j - 1)] == s[start + (j - 1)]);
                assert(own[1 + (j - 1)] == s[start + (j - 1)]);
            }
        }
        assert(own =~= key);
    }
}

/// The keys of the eight slices that a row holds: the identifiers from its own
/// on, each with two of its noised words.
pub open spec fn slice_keys(s: Seq<u64>) -> Seq<Seq<int>> {
    Seq::new(
        8,
        |k: int|
            seq![
                s[MAT_ID as int] + k,
                s[NOISED_PACKED_START + 2 * k] as int,
                s[NOISED_PACKED_START + 2 * k + 1] as int,
            ],
    )
}

/// The keys of the four slices of an operand: each identifier with two of the
/// operand's words.
pub open spec fn operand_keys(s: Seq<u64>, id: int, words: int) -> Seq<Seq<int>> {
    Seq::new(
        4,
        |j: int| seq![s[id + j] as int, s[words + 2 * j] as int, s[words + 2 * j + 1] as int],
    )
}

/// How often the first slices that a row holds are listed under a key: as
/// often as their counts say, those after the first only on matrix message
/// rows.
pub open spec fn listed_slices(s: Seq<u64>, key: Seq<int>, n: nat) -> int
    decreases n,
{
    if n == 0 {
        0
    } else {
        let k = n - 1;
        let freq = s[MAT_FREQ + k] as int;
        listed_slices(s, key, (n - 1) as nat) + if slice_keys(s)[k] != key {
            0
        } else if k == 0 {
            freq
        } else {
            freq * s[IS_MSG_MAT as int]
        }
    }
}

/// What a row does on the bus of stored slices: it lists its eight slices, as
/// often as their counts say; where it resets or updates the accumulator it
/// asks for the four slices of either operand; and on a matrix message row it
/// asks for its own eight slices.
pub proof fn slice_entries_are_exact(s: Seq<u64>, key: Seq<int>)
    ensures
        weighted_count(composite_entries(s), BUS_NOISED_PACKED, key, 1) == (
        s[IS_RESET_CUMSUM as int] + s[IS_UPDATE_CUMSUM as int]) * (occurrences(
            operand_keys(s, A_ID as int, A_NOISED_START as int),
            key,
        ) + occurrences(operand_keys(s, B_ID as int, B_NOISED_START as int), key))
            + s[IS_MSG_MAT as int] * occurrences(slice_keys(s), key),
        weighted_count(composite_entries(s), BUS_NOISED_PACKED, key, 0) == -listed_slices(
            s,
            key,
            8,
        ),
{
    let bus = BUS_NOISED_PACKED;
    let store = store_entries(s, 8);
    let left = operand_queries(s, A_ID as int, A_NOISED_START as int, 4);
    let right = operand_queries(s, B_ID as int, B_NOISED_START as int, 4);
    let own = message_queries(s, 8);
    let active = s[IS_RESET_CUMSUM as int] + s[IS_UPDATE_CUMSUM as int];
    let msg = s[IS_MSG_MAT as int] as int;
    let a_keys = operand_keys(s, A_ID as int, A_NOISED_START as int);
    let b_keys = operand_keys(s, B_ID as int, B_NOISED_START as int);
    lemma_own_entries(s, key, 0);
    lemma_own_entries(s, key, 1);
    lemma_count_queries(left, bus, a_keys, active, key);
    lemma_count_queries(right, bus, b_keys, active, key);
    lemma_count_queries(own, bus, slice_keys(s), msg, key);
    lemma_listed_slices(s, key, 8);
    lemma_count_concat(store, left, bus, key, 0);
    lemma_count_concat(store + left, right, bus, key, 0);
    lemma_count_concat(store + left + right, own, bus, key, 0);
    lemma_count_concat(store, left, bus, key, 1);
    lemma_count_concat(store + left, right, bus, key, 1);
    lemma_count_concat(store + left + right, own, bus, key, 1);
    assert(noised_packed_entries(s) == store + left + right + own);
    let x = occurrences(a_keys, key);
    let y = occurrences(b_keys, key);
    assert(active * (x + y) == active * x + active * y) by (nonlinear_arith);
}

/// The table entries of the first slices.
proof fn lemma_listed_slices(s: Seq<u64>, key: Seq<int>, n: nat)
    requires
        n <= 8,
    ensures
        weighted_count(store_entries(s, n), BUS_NOISED_PACKED, key, 0) == -listed_slices(s, key, n),
        weighted_count(store_entries(s, n), BUS_NOISED_PACKED, key, 1) == 0,
    decreases n,
{
    if n > 0 {
        let e = store_entries(s, n);
        lemma_listed_slices(s, key, (n - 1) as nat);
        assert(e.drop_last() =~= store_entries(s, (n - 1) as nat));
        assert(e.last().key == slice_keys(s)[n - 1]);
    }
}

/// Every interaction of a row is a table entry or a query, and none asks and
/// lists at once: the totals of the two kinds make up the whole.
pub proof fn entries_are_tables_or_queries(s: Seq<u64>, i: int)
    requires
        0 <= i < composite_entries(s).len(),
    ensures
        composite_entries(s)[i].weight == 0 || composite_entries(s)[i].weight == 1,
{
    let e = composite_entries(s);
    if i < 2 {
        assert(e[i] == urange8_entries(s)[i]);
    } else if i < 9 {
        assert(e[i] == urange13_entries(s)[i - 2]);
    } else if i < 138 {
        assert(e[i] == irange7p1_entries(s)[i - 9]);
    } else if i < 203 {
        assert(e[i] == irange8_entries(s)[i - 138]);
    } else if i < 268 {
        assert(e[i] == i8u8_entries(s)[i - 203]);
    } else if i < 292 {
        assert(e[i] == noised_packed_entries(s)[i - 268]);
    } else {
        assert(e[i] == cv_routing_entries(s)[i - 292]);
    }
}

} // verus!
