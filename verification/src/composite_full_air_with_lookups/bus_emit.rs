//! What each row of the composite trace sends to and receives from the buses.

use vstd::prelude::*;

use crate::air::{Expr, Window};
use crate::bus::{
    cell_queries, query_entry, table_entry, BusEntry, InteractionBuilder,
};
use crate::composite_layout::{
    AB_ID_LIMBS_LEN, AB_ID_LIMBS_START, A_ID, A_NOISED_START, A_NOISED_UNPACK_LEN,
    A_NOISED_UNPACK_START, B_ID, B_NOISED_START, B_NOISED_UNPACK_LEN, B_NOISED_UNPACK_START,
    CV_IN_START, CV_OR_TWEAK_PREP, CV_OUT_FREQ, CV_OUT_START, I8U8_FREQ, I8U8_TABLE,
    IRANGE7P1_FREQ, IRANGE7P1_TABLE, IRANGE8_FREQ, IRANGE8_TABLE, IS_CV_IN, IS_MSG_MAT,
    IS_RESET_CUMSUM, IS_UPDATE_CUMSUM, MAT_FREQ, MAT_FREQ_LEN, MAT_ID, MAT_ID_LIMBS_LEN,
    MAT_ID_LIMBS_START, MAT_UNPACK_START, MAT_UNPACK_WIN, NOISED_PACKED_START, NOISE_UNPACK_START,
    NOISE_UNPACK_WIN, STARK_ROW_IDX, UINT8_DATA_START, URANGE13_FREQ, URANGE13_TABLE, URANGE8_FREQ,
    URANGE8_TABLE,
};
use crate::composite_lookups::{
    BUS_CV_ROUTING, BUS_I8U8, BUS_IRANGE7P1, BUS_IRANGE8, BUS_NOISED_PACKED, BUS_URANGE13,
    BUS_URANGE8,
};

verus! {

/// Bytes: the table, and the first message byte of a matrix message row.
pub open spec fn urange8_entries(s: Seq<u64>) -> Seq<BusEntry> {
    seq![
        table_entry(
            BUS_URANGE8,
            seq![s[URANGE8_TABLE as int] as int],
            s[URANGE8_FREQ as int] as int,
        ),
        query_entry(
            BUS_URANGE8,
            seq![s[UINT8_DATA_START as int] as int],
            s[IS_MSG_MAT as int] as int,
        ),
    ]
}

/// Limbs: the table, and every limb of the row's identifiers.
pub open spec fn urange13_entries(s: Seq<u64>) -> Seq<BusEntry> {
    seq![
        table_entry(
            BUS_URANGE13,
            seq![s[URANGE13_TABLE as int] as int],
            s[URANGE13_FREQ as int] as int,
        ),
    ] + cell_queries(BUS_URANGE13, s, MAT_ID_LIMBS_START as int, 2) + cell_queries(
        BUS_URANGE13,
        s,
        AB_ID_LIMBS_START as int,
        4,
    )
}

/// Noise bytes: the table, and every noise and matrix byte of the row.
pub open spec fn irange7p1_entries(s: Seq<u64>) -> Seq<BusEntry> {
    seq![
        table_entry(
            BUS_IRANGE7P1,
            seq![s[IRANGE7P1_TABLE as int] as int],
            s[IRANGE7P1_FREQ as int] as int,
        ),
    ] + cell_queries(BUS_IRANGE7P1, s, NOISE_UNPACK_START as int, 64) + cell_queries(
        BUS_IRANGE7P1,
        s,
        MAT_UNPACK_START as int,
        64,
    )
}

/// Signed bytes: the table, and every operand byte of the row.
pub open spec fn irange8_entries(s: Seq<u64>) -> Seq<BusEntry> {
    seq![
        table_entry(
            BUS_IRANGE8,
            seq![s[IRANGE8_TABLE as int] as int],
            s[IRANGE8_FREQ as int] as int,
        ),
    ] + cell_queries(BUS_IRANGE8, s, A_NOISED_UNPACK_START as int, 32) + cell_queries(
        BUS_IRANGE8,
        s,
        B_NOISED_UNPACK_START as int,
        32,
    )
}

/// The conversion query for one byte.
pub open spec fn conversion_query(s: Seq<u64>, i: int) -> BusEntry {
    query_entry(
        BUS_I8U8,
        seq![s[MAT_UNPACK_START + i] * 256 + s[UINT8_DATA_START + i]],
        s[IS_MSG_MAT as int] as int,
    )
}

/// Byte conversion: the table, and on matrix message rows every pair of a
/// matrix byte and its message byte.
pub open spec fn i8u8_entries(s: Seq<u64>) -> Seq<BusEntry> {
    seq![
        table_entry(BUS_I8U8, seq![s[I8U8_TABLE as int] as int], s[I8U8_FREQ as int] as int),
    ] + Seq::new(64, |i: int| conversion_query(s, i))
}

/// One stored slice of a row: its identifier and its two noised words.
pub open spec fn stored_slice(s: Seq<u64>, k: int) -> Seq<int> {
    seq![
        s[MAT_ID as int] + k,
        s[NOISED_PACKED_START + 2 * k] as int,
        s[NOISED_PACKED_START + 2 * k + 1] as int,
    ]
}

/// How often a stored slice is read: slices after the first count only on
/// matrix message rows.
pub open spec fn slice_freq(s: Seq<u64>, k: int) -> int {
    if k == 0 {
        s[MAT_FREQ as int] as int
    } else {
        s[MAT_FREQ + k] * s[IS_MSG_MAT as int]
    }
}

/// One operand slice: its identifier and its two noised words.
pub open spec fn operand_slice(s: Seq<u64>, id: int, words: int, j: int) -> Seq<int> {
    seq![s[id + j] as int, s[words + 2 * j] as int, s[words + 2 * j + 1] as int]
}

/// The table entries of the row's stored slices.
pub open spec fn store_entries(s: Seq<u64>, n: nat) -> Seq<BusEntry> {
    Seq::new(n, |k: int| table_entry(BUS_NOISED_PACKED, stored_slice(s, k), slice_freq(s, k)))
}

/// The queries for operand slices, made on rows that reset or update.
pub open spec fn operand_queries(s: Seq<u64>, id: int, words: int, n: nat) -> Seq<BusEntry> {
    Seq::new(
        n,
        |j: int|
            query_entry(
                BUS_NOISED_PACKED,
                operand_slice(s, id, words, j),
                s[IS_RESET_CUMSUM as int] + s[IS_UPDATE_CUMSUM as int],
            ),
    )
}

/// The queries for the row's own slices, made on matrix message rows.
pub open spec fn message_queries(s: Seq<u64>, n: nat) -> Seq<BusEntry> {
    Seq::new(
        n,
        |k: int|
            query_entry(BUS_NOISED_PACKED, stored_slice(s, k), s[IS_MSG_MAT as int] as int),
    )
}

/// Stored slices: the row's own eight, the operand slices it reads, and on
/// matrix message rows its own slices again.
pub open spec fn noised_packed_entries(s: Seq<u64>) -> Seq<BusEntry> {
    store_entries(s, 8) + operand_queries(s, A_ID as int, A_NOISED_START as int, 4)
        + operand_queries(s, B_ID as int, B_NOISED_START as int, 4) + message_queries(s, 8)
}

/// A tag followed by eight words.
pub open spec fn tagged_words(s: Seq<u64>, tag: int, start: int, n: nat) -> Seq<int> {
    seq![s[tag] as int] + Seq::new(n, |i: int| s[start + i] as int)
}

/// Chaining values: the row's own, under its index, and the one it takes over,
/// under the index it names.
pub open spec fn cv_routing_entries(s: Seq<u64>) -> Seq<BusEntry> {
    seq![
        table_entry(
            BUS_CV_ROUTING,
            tagged_words(s, STARK_ROW_IDX as int, CV_OUT_START as int, 8),
            s[CV_OUT_FREQ as int] as int,
        ),
        query_entry(
            BUS_CV_ROUTING,
            tagged_words(s, CV_OR_TWEAK_PREP as int, CV_IN_START as int, 8),
            s[IS_CV_IN as int] as int,
        ),
    ]
}

/// Everything a row sends to and receives from the buses.
pub open spec fn composite_entries(s: Seq<u64>) -> Seq<BusEntry> {
    urange8_entries(s) + urange13_entries(s) + irange7p1_entries(s) + irange8_entries(s)
        + i8u8_entries(s) + noised_packed_entries(s) + cv_routing_entries(s)
}

/// Emits [`urange8_entries`].
pub fn urange8(b: &mut InteractionBuilder)
    ensures
        forall|w: Window| #[trigger]
            final(b).entries(w) == old(b).entries(w) + urange8_entries(w.cur),
{
    b.push_table(BUS_URANGE8, URANGE8_TABLE, URANGE8_FREQ);
    let ghost b1 = *b;
    b.push_query(BUS_URANGE8, UINT8_DATA_START, IS_MSG_MAT);
    assert forall|w: Window| #[trigger]
        b.entries(w) == old(b).entries(w) + urange8_entries(w.cur) by {
        assert(b1.entries(w) == old(b).entries(w).push(urange8_entries(w.cur)[0]));
        assert(b.entries(w) =~= old(b).entries(w) + urange8_entries(w.cur));
    }
}

/// Emits [`urange13_entries`].
pub fn urange13(b: &mut InteractionBuilder)
    ensures
        forall|w: Window| #[trigger]
            final(b).entries(w) == old(b).entries(w) + urange13_entries(w.cur),
{
    b.push_table(BUS_URANGE13, URANGE13_TABLE, URANGE13_FREQ);
    let ghost b1 = *b;
    b.push_queries(BUS_URANGE13, MAT_ID_LIMBS_START, MAT_ID_LIMBS_LEN);
    let ghost b2 = *b;
    b.push_queries(BUS_URANGE13, AB_ID_LIMBS_START, AB_ID_LIMBS_LEN);
    assert forall|w: Window| #[trigger]
        b.entries(w) == old(b).entries(w) + urange13_entries(w.cur) by {
        assert(b1.entries(w) == old(b).entries(w).push(urange13_entries(w.cur)[0]));
        assert(b2.entries(w) == b1.entries(w) + cell_queries(
            BUS_URANGE13,
            w.cur,
            MAT_ID_LIMBS_START as int,
            2,
        ));
        assert(b.entries(w) =~= old(b).entries(w) + urange13_entries(w.cur));
    }
}

/// Emits [`irange7p1_entries`].
pub fn irange7p1(b: &mut InteractionBuilder)
    ensures
        forall|w: Window| #[trigger]
            final(b).entries(w) == old(b).entries(w) + irange7p1_entries(w.cur),
{
    b.push_table(BUS_IRANGE7P1, IRANGE7P1_TABLE, IRANGE7P1_FREQ);
    let ghost b1 = *b;
    b.push_queries(BUS_IRANGE7P1, NOISE_UNPACK_START, NOISE_UNPACK_WIN);
    let ghost b2 = *b;
    b.push_queries(BUS_IRANGE7P1, MAT_UNPACK_START, MAT_UNPACK_WIN);
    assert forall|w: Window| #[trigger]
        b.entries(w) == old(b).entries(w) + irange7p1_entries(w.cur) by {
        assert(b1.entries(w) == old(b).entries(w).push(irange7p1_entries(w.cur)[0]));
        assert(b2.entries(w) == b1.entries(w) + cell_queries(
            BUS_IRANGE7P1,
            w.cur,
            NOISE_UNPACK_START as int,
            64,
        ));
        assert(b.entries(w) =~= old(b).entries(w) + irange7p1_entries(w.cur));
    }
}

/// Emits [`irange8_entries`].
pub fn irange8(b: &mut InteractionBuilder)
    ensures
        forall|w: Window| #[trigger]
            final(b).entries(w) == old(b).entries(w) + irange8_entries(w.cur),
{
    b.push_table(BUS_IRANGE8, IRANGE8_TABLE, IRANGE8_FREQ);
    let ghost b1 = *b;
    b.push_queries(BUS_IRANGE8, A_NOISED_UNPACK_START, A_NOISED_UNPACK_LEN);
    let ghost b2 = *b;
    b.push_queries(BUS_IRANGE8, B_NOISED_UNPACK_START, B_NOISED_UNPACK_LEN);
    assert forall|w: Window| #[trigger]
        b.entries(w) == old(b).entries(w) + irange8_entries(w.cur) by {
        assert(b1.entries(w) == old(b).entries(w).push(irange8_entries(w.cur)[0]));
        assert(b2.entries(w) == b1.entries(w) + cell_queries(
            BUS_IRANGE8,
            w.cur,
            A_NOISED_UNPACK_START as int,
            32,
        ));
        assert(b.entries(w) =~= old(b).entries(w) + irange8_entries(w.cur));
    }
}

/// Emits [`i8u8_entries`].
pub fn i8u8(b: &mut InteractionBuilder)
    ensures
        forall|w: Window| #[trigger]
            final(b).entries(w) == old(b).entries(w) + i8u8_entries(w.cur),
{
    b.push_table(BUS_I8U8, I8U8_TABLE, I8U8_FREQ);
    let ghost b1 = *b;
    let mut i: usize = 0;
    assert forall|w: Window| #[trigger]
        b.entries(w) == b1.entries(w) + Seq::new(0, |k: int| conversion_query(w.cur, k)) by {
        assert(b.entries(w) =~= b1.entries(w) + Seq::new(0, |k: int| conversion_query(w.cur, k)));
    }
    while i < MAT_UNPACK_WIN
        invariant
            i <= 64,
            forall|w: Window| #[trigger]
                b.entries(w) == b1.entries(w) + Seq::new(
                    i as nat,
                    |k: int| conversion_query(w.cur, k),
                ),
        decreases 64 - i,
    {
        let ghost mid = *b;
        let high = Expr::cur(MAT_UNPACK_START + i).times(Expr::constant(256));
        let pair = high.plus(Expr::cur(UINT8_DATA_START + i));
        let mut key: Vec<Expr> = Vec::new();
        key.push(pair);
        b.push_interaction(BUS_I8U8, key, Expr::cur(IS_MSG_MAT), 1);
        i = i + 1;
        assert forall|w: Window| #[trigger]
            b.entries(w) == b1.entries(w) + Seq::new(
                i as nat,
                |k: int| conversion_query(w.cur, k),
            ) by {
            let s = w.cur;
            assert(high.value(w) == s[MAT_UNPACK_START + i - 1] * 256);
            assert(pair.value(w) == high.value(w) + s[UINT8_DATA_START + i - 1]);
            assert(Seq::new(key@.len(), |k: int| key@[k].value(w)) =~= seq![
                s[MAT_UNPACK_START + (i - 1)] * 256 + s[UINT8_DATA_START + (i - 1)],
            ]);
            assert(mid.entries(w) == b1.entries(w) + Seq::new(
                (i - 1) as nat,
                |k: int| conversion_query(s, k),
            ));
            assert(b.entries(w) =~= b1.entries(w) + Seq::new(
                i as nat,
                |k: int| conversion_query(s, k),
            ));
        }
    }
    assert forall|w: Window| #[trigger]
        b.entries(w) == old(b).entries(w) + i8u8_entries(w.cur) by {
        assert(b1.entries(w) == old(b).entries(w).push(i8u8_entries(w.cur)[0]));
        assert(b.entries(w) =~= old(b).entries(w) + i8u8_entries(w.cur));
    }
}

/// The key of a stored slice.
fn stored_slice_key(k: usize) -> (key: Vec<Expr>)
    requires
        k < 8,
    ensures
        forall|w: Window|
            Seq::new(key@.len(), |i: int| key@[i].value(w)) == #[trigger] stored_slice(
                w.cur,
                k as int,
            ),
{
    let id = Expr::cur(MAT_ID).plus(Expr::constant(k as u64));
    let low = Expr::cur(NOISED_PACKED_START + 2 * k);
    let high = Expr::cur(NOISED_PACKED_START + 2 * k + 1);
    let mut key: Vec<Expr> = Vec::new();
    key.push(id);
    key.push(low);
    key.push(high);
    assert forall|w: Window|
        Seq::new(key@.len(), |i: int| key@[i].value(w)) == #[trigger] stored_slice(
            w.cur,
            k as int,
        ) by {
        assert(id.value(w) == w.cur[MAT_ID as int] + k);
        assert(low.value(w) == w.cur[NOISED_PACKED_START + 2 * k]);
        assert(high.value(w) == w.cur[NOISED_PACKED_START + 2 * k + 1]);
        assert(Seq::new(key@.len(), |i: int| key@[i].value(w)) =~= stored_slice(
            w.cur,
            k as int,
        ));
    }
    key
}

/// Emits the table entries of the row's stored slices.
fn emit_store(b: &mut InteractionBuilder)
    ensures
        forall|w: Window| #[trigger]
            final(b).entries(w) == old(b).entries(w) + store_entries(w.cur, 8),
{
    let mut k: usize = 0;
    assert forall|w: Window| #[trigger]
        b.entries(w) == old(b).entries(w) + store_entries(w.cur, 0) by {
        assert(b.entries(w) =~= old(b).entries(w) + store_entries(w.cur, 0));
    }
    while k < MAT_FREQ_LEN
        invariant
            k <= 8,
            forall|w: Window| #[trigger]
                b.entries(w) == old(b).entries(w) + store_entries(w.cur, k as nat),
        decreases 8 - k,
    {
        let ghost mid = *b;
        let key = stored_slice_key(k);
        let freq = if k == 0 {
            Expr::cur(MAT_FREQ)
        } else {
            Expr::cur(MAT_FREQ + k).times(Expr::cur(IS_MSG_MAT))
        };
        let count = Expr::constant(0).minus(freq);
        b.push_interaction(BUS_NOISED_PACKED, key, count, 0);
        k = k + 1;
        assert forall|w: Window| #[trigger]
            b.entries(w) == old(b).entries(w) + store_entries(w.cur, k as nat) by {
            assert(Seq::new(key@.len(), |i: int| key@[i].value(w)) == stored_slice(
                w.cur,
                k - 1,
            ));
            assert(freq.value(w) == slice_freq(w.cur, k - 1));
            assert(count.value(w) == -slice_freq(w.cur, k - 1));
            assert(mid.entries(w) == old(b).entries(w) + store_entries(w.cur, (k - 1) as nat));
            assert(b.entries(w) =~= old(b).entries(w) + store_entries(w.cur, k as nat));
        }
    }
}

/// Emits the queries for operand slices.
fn emit_operand_queries(b: &mut InteractionBuilder, id: usize, words: usize)
    requires
        id + 4 <= usize::MAX,
        words + 8 <= usize::MAX,
    ensures
        forall|w: Window| #[trigger]
            final(b).entries(w) == old(b).entries(w) + operand_queries(
                w.cur,
                id as int,
                words as int,
                4,
            ),
{
    let mut j: usize = 0;
    assert forall|w: Window| #[trigger]
        b.entries(w) == old(b).entries(w) + operand_queries(w.cur, id as int, words as int, 0) by {
        assert(b.entries(w) =~= old(b).entries(w) + operand_queries(
            w.cur,
            id as int,
            words as int,
            0,
        ));
    }
    while j < 4
        invariant
            j <= 4,
            id + 4 <= usize::MAX,
            words + 8 <= usize::MAX,
            forall|w: Window| #[trigger]
                b.entries(w) == old(b).entries(w) + operand_queries(
                    w.cur,
                    id as int,
                    words as int,
                    j as nat,
                ),
        decreases 4 - j,
    {
        let ghost mid = *b;
        let tag = Expr::cur(id + j);
        let low = Expr::cur(words + 2 * j);
        let high = Expr::cur(words + 2 * j + 1);
        let mut key: Vec<Expr> = Vec::new();
        key.push(tag);
        key.push(low);
        key.push(high);
        let active = Expr::cur(IS_RESET_CUMSUM).plus(Expr::cur(IS_UPDATE_CUMSUM));
        b.push_interaction(BUS_NOISED_PACKED, key, active, 1);
        j = j + 1;
        assert forall|w: Window| #[trigger]
            b.entries(w) == old(b).entries(w) + operand_queries(
                w.cur,
                id as int,
                words as int,
                j as nat,
            ) by {
            assert(tag.value(w) == w.cur[id + j - 1]);
            assert(low.value(w) == w.cur[words + 2 * (j - 1)]);
            assert(high.value(w) == w.cur[words + 2 * (j - 1) + 1]);
            assert(active.value(w) == w.cur[IS_RESET_CUMSUM as int]
                + w.cur[IS_UPDATE_CUMSUM as int]);
            assert(Seq::new(key@.len(), |i: int| key@[i].value(w)) =~= operand_slice(
                w.cur,
                id as int,
                words as int,
                j - 1,
            ));
            assert(mid.entries(w) == old(b).entries(w) + operand_queries(
                w.cur,
                id as int,
                words as int,
                (j - 1) as nat,
            ));
            assert(b.entries(w) =~= old(b).entries(w) + operand_queries(
                w.cur,
                id as int,
                words as int,
                j as nat,
            ));
        }
    }
}

/// Emits the queries for the row's own slices.
fn emit_message_queries(b: &mut InteractionBuilder)
    ensures
        forall|w: Window| #[trigger]
            final(b).entries(w) == old(b).entries(w) + message_queries(w.cur, 8),
{
    let mut k: usize = 0;
    assert forall|w: Window| #[trigger]
        b.entries(w) == old(b).entries(w) + message_queries(w.cur, 0) by {
        assert(b.entries(w) =~= old(b).entries(w) + message_queries(w.cur, 0));
    }
    while k < MAT_FREQ_LEN
        invariant
            k <= 8,
            forall|w: Window| #[trigger]
                b.entries(w) == old(b).entries(w) + message_queries(w.cur, k as nat),
        decreases 8 - k,
    {
        let ghost mid = *b;
        let key = stored_slice_key(k);
        let flag = Expr::cur(IS_MSG_MAT);
        b.push_interaction(BUS_NOISED_PACKED, key, flag, 1);
        k = k + 1;
        assert forall|w: Window| #[trigger]
            b.entries(w) == old(b).entries(w) + message_queries(w.cur, k as nat) by {
            assert(Seq::new(key@.len(), |i: int| key@[i].value(w)) == stored_slice(
                w.cur,
                k - 1,
            ));
            assert(flag.value(w) == w.cur[IS_MSG_MAT as int]);
            assert(mid.entries(w) == old(b).entries(w) + message_queries(w.cur, (k - 1) as nat));
            assert(b.entries(w) =~= old(b).entries(w) + message_queries(w.cur, k as nat));
        }
    }
}

/// Emits [`noised_packed_entries`].
pub fn noised_packed(b: &mut InteractionBuilder)
    ensures
        forall|w: Window| #[trigger]
            final(b).entries(w) == old(b).entries(w) + noised_packed_entries(w.cur),
{
    emit_store(b);
    let ghost b1 = *b;
    emit_operand_queries(b, A_ID, A_NOISED_START);
    let ghost b2 = *b;
    emit_operand_queries(b, B_ID, B_NOISED_START);
    let ghost b3 = *b;
    emit_message_queries(b);
    assert forall|w: Window| #[trigger]
        b.entries(w) == old(b).entries(w) + noised_packed_entries(w.cur) by {
        assert(b1.entries(w) == old(b).entries(w) + store_entries(w.cur, 8));
        assert(b2.entries(w) == b1.entries(w) + operand_queries(
            w.cur,
            A_ID as int,
            A_NOISED_START as int,
            4,
        ));
        assert(b3.entries(w) == b2.entries(w) + operand_queries(
            w.cur,
            B_ID as int,
            B_NOISED_START as int,
            4,
        ));
        assert(b.entries(w) =~= old(b).entries(w) + noised_packed_entries(w.cur));
    }
}

/// The key made of a tag and eight words.
fn tagged_key(tag: usize, start: usize) -> (key: Vec<Expr>)
    requires
        start + 8 <= usize::MAX,
    ensures
        forall|w: Window|
            Seq::new(key@.len(), |i: int| key@[i].value(w)) == #[trigger] tagged_words(
                w.cur,
                tag as int,
                start as int,
                8,
            ),
{
    let mut key: Vec<Expr> = Vec::new();
    key.push(Expr::cur(tag));
    let mut i: usize = 0;
    while i < 8
        invariant
            i <= 8,
            start + 8 <= usize::MAX,
            key@.len() == i + 1,
            forall|w: Window| #[trigger] key@[0].value(w) == w.cur[tag as int],
            forall|w: Window, k: int|
                1 <= k <= i ==> #[trigger] key@[k].value(w) == w.cur[start + k - 1],
        decreases 8 - i,
    {
        key.push(Expr::cur(start + i));
        i = i + 1;
    }
    assert forall|w: Window|
        Seq::new(key@.len(), |i: int| key@[i].value(w)) == #[trigger] tagged_words(
            w.cur,
            tag as int,
            start as int,
            8,
        ) by {
        assert(Seq::new(key@.len(), |i: int| key@[i].value(w)) =~= tagged_words(
            w.cur,
            tag as int,
            start as int,
            8,
        ));
    }
    key
}

/// Emits [`cv_routing_entries`].
pub fn cv_routing(b: &mut InteractionBuilder)
    ensures
        forall|w: Window| #[trigger]
            final(b).entries(w) == old(b).entries(w) + cv_routing_entries(w.cur),
{
    let own = tagged_key(STARK_ROW_IDX, CV_OUT_START);
    let freq = Expr::constant(0).minus(Expr::cur(CV_OUT_FREQ));
    b.push_interaction(BUS_CV_ROUTING, own, freq, 0);
    let ghost b1 = *b;
    let taken = tagged_key(CV_OR_TWEAK_PREP, CV_IN_START);
    let flag = Expr::cur(IS_CV_IN);
    b.push_interaction(BUS_CV_ROUTING, taken, flag, 1);
    assert forall|w: Window| #[trigger]
        b.entries(w) == old(b).entries(w) + cv_routing_entries(w.cur) by {
        let s = w.cur;
        assert(Seq::new(own@.len(), |i: int| own@[i].value(w)) == tagged_words(
            s,
            STARK_ROW_IDX as int,
            CV_OUT_START as int,
            8,
        ));
        assert(freq.value(w) == -(s[CV_OUT_FREQ as int] as int));
        assert(b1.entries(w) == old(b).entries(w).push(cv_routing_entries(s)[0]));
        assert(Seq::new(taken@.len(), |i: int| taken@[i].value(w)) == tagged_words(
            s,
            CV_OR_TWEAK_PREP as int,
            CV_IN_START as int,
            8,
        ));
        assert(flag.value(w) == s[IS_CV_IN as int]);
        assert(b.entries(w) =~= old(b).entries(w) + cv_routing_entries(s));
    }
}

} // verus!
