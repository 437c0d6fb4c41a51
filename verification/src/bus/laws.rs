//! What a balanced bus says of its queries.

use vstd::prelude::*;

use crate::bus::{key_count, BusEntry};
use crate::field::{enc, is_zero, lemma_zero_add, lemma_zero_small, p};

verus! {

/// An entry with its key taken as field elements.
pub open spec fn reduced(e: BusEntry) -> BusEntry {
    BusEntry { key: Seq::new(e.key.len(), |i: int| enc(e.key[i])), ..e }
}

/// The bus balances: no key is asked for more or less often than the table
/// entries say.
pub open spec fn balanced(entries: Seq<BusEntry>, bus: &'static str) -> bool {
    forall|key: Seq<int>| is_zero(#[trigger] key_count(entries, bus, key))
}

/// Every query is made once or not at all.
pub open spec fn single_queries(entries: Seq<BusEntry>) -> bool {
    forall|i: int|
        0 <= i < entries.len() && (#[trigger] entries[i]).weight != 0 ==> entries[i].count == 0
            || entries[i].count == 1
}

/// An entry for a key.
pub open spec fn asks(e: BusEntry, bus: &'static str, key: Seq<int>) -> bool {
    e.bus == bus@ && e.key == key
}

/// How many queries some entries make for a key.
pub open spec fn live_count(entries: Seq<BusEntry>, bus: &'static str, key: Seq<int>) -> nat
    decreases entries.len(),
{
    if entries.len() == 0 {
        0
    } else {
        let last = entries.last();
        live_count(entries.drop_last(), bus, key) + if asks(last, bus, key) && last.weight != 0
            && last.count == 1 {
            1nat
        } else {
            0nat
        }
    }
}

/// Where no table entry lists a key, its total is the number of queries.
proof fn lemma_unlisted_count(entries: Seq<BusEntry>, bus: &'static str, key: Seq<int>)
    requires
        single_queries(entries),
        forall|j: int|
            0 <= j < entries.len() && asks(#[trigger] entries[j], bus, key) && entries[j].weight
                == 0 ==> is_zero(entries[j].count),
    ensures
        is_zero(key_count(entries, bus, key) - live_count(entries, bus, key)),
        live_count(entries, bus, key) <= entries.len(),
    decreases entries.len(),
{
    if entries.len() > 0 {
        let rest = entries.drop_last();
        let last = entries.last();
        assert forall|i: int|
            0 <= i < rest.len() && (#[trigger] rest[i]).weight != 0 implies rest[i].count == 0
            || rest[i].count == 1 by {
            assert(rest[i] == entries[i]);
        }
        assert forall|j: int|
            0 <= j < rest.len() && asks(#[trigger] rest[j], bus, key) && rest[j].weight
                == 0 implies is_zero(rest[j].count) by {
            assert(rest[j] == entries[j]);
        }
        lemma_unlisted_count(rest, bus, key);
        assert(last == entries[entries.len() - 1]);
        if asks(last, bus, key) && last.weight == 0 {
            lemma_zero_add(key_count(rest, bus, key) - live_count(rest, bus, key), last.count);
        }
    }
}

/// A query that is made counts.
proof fn lemma_live_count(entries: Seq<BusEntry>, bus: &'static str, i: int)
    requires
        0 <= i < entries.len(),
        entries[i].bus == bus@,
        entries[i].weight != 0,
        entries[i].count == 1,
    ensures
        live_count(entries, bus, entries[i].key) >= 1,
    decreases entries.len(),
{
    if i < entries.len() - 1 {
        assert(entries.drop_last()[i] == entries[i]);
        lemma_live_count(entries.drop_last(), bus, i);
    }
}

/// On a balanced bus every query that is made finds a table entry for its key
/// that counts.
pub proof fn balanced_query_is_listed(entries: Seq<BusEntry>, bus: &'static str, i: int)
    requires
        entries.len() < p(),
        single_queries(entries),
        balanced(entries, bus),
        0 <= i < entries.len(),
        entries[i].bus == bus@,
        entries[i].weight != 0,
        entries[i].count == 1,
    ensures
        exists|j: int|
            0 <= j < entries.len() && asks(#[trigger] entries[j], bus, entries[i].key)
                && entries[j].weight == 0 && !is_zero(entries[j].count),
{
    let key = entries[i].key;
    if forall|j: int|
        0 <= j < entries.len() && asks(#[trigger] entries[j], bus, key) && entries[j].weight == 0
            ==> is_zero(entries[j].count) {
        lemma_unlisted_count(entries, bus, key);
        lemma_live_count(entries, bus, i);
        let total = key_count(entries, bus, key);
        let live = live_count(entries, bus, key) as int;
        lemma_zero_add(total, total - live);
        lemma_zero_small(live);
    }
}

/// What entries of a given weight add up to for a key: table entries have
/// weight zero, queries weight one.
pub open spec fn weighted_count(
    entries: Seq<BusEntry>,
    bus: &'static str,
    key: Seq<int>,
    weight: u32,
) -> int
    decreases entries.len(),
{
    if entries.len() == 0 {
        0
    } else {
        let last = entries.last();
        weighted_count(entries.drop_last(), bus, key, weight) + if asks(last, bus, key)
            && last.weight == weight {
            last.count
        } else {
            0
        }
    }
}

/// How often a key stands in a list of keys.
pub open spec fn occurrences(keys: Seq<Seq<int>>, key: Seq<int>) -> int
    decreases keys.len(),
{
    if keys.len() == 0 {
        0
    } else {
        occurrences(keys.drop_last(), key) + if keys.last() == key {
            1int
        } else {
            0
        }
    }
}

/// Entries of two lists add up.
pub proof fn lemma_count_concat(
    a: Seq<BusEntry>,
    b: Seq<BusEntry>,
    bus: &'static str,
    key: Seq<int>,
    weight: u32,
)
    ensures
        weighted_count(a + b, bus, key, weight) == weighted_count(a, bus, key, weight)
            + weighted_count(b, bus, key, weight),
    decreases b.len(),
{
    if b.len() == 0 {
        assert(a + b =~= a);
    } else {
        assert((a + b).drop_last() =~= a + b.drop_last());
        lemma_count_concat(a, b.drop_last(), bus, key, weight);
    }
}

/// Entries of other buses do not count.
pub proof fn lemma_count_foreign(
    entries: Seq<BusEntry>,
    bus: &'static str,
    key: Seq<int>,
    weight: u32,
)
    requires
        forall|i: int| 0 <= i < entries.len() ==> (#[trigger] entries[i]).bus != bus@,
    ensures
        weighted_count(entries, bus, key, weight) == 0,
    decreases entries.len(),
{
    if entries.len() > 0 {
        let rest = entries.drop_last();
        assert forall|i: int| 0 <= i < rest.len() implies (#[trigger] rest[i]).bus != bus@ by {
            assert(rest[i] == entries[i]);
        }
        lemma_count_foreign(rest, bus, key, weight);
        assert(entries[entries.len() - 1].bus != bus@);
    }
}

/// Queries for a list of keys, all made equally often.
pub proof fn lemma_count_queries(
    entries: Seq<BusEntry>,
    bus: &'static str,
    keys: Seq<Seq<int>>,
    count: int,
    key: Seq<int>,
)
    requires
        entries.len() == keys.len(),
        forall|i: int|
            0 <= i < entries.len() ==> #[trigger] entries[i] == (BusEntry {
                bus: bus@,
                key: keys[i],
                count,
                weight: 1,
            }),
    ensures
        weighted_count(entries, bus, key, 1) == count * occurrences(keys, key),
        weighted_count(entries, bus, key, 0) == 0,
    decreases entries.len(),
{
    if entries.len() > 0 {
        let rest = entries.drop_last();
        assert forall|i: int| 0 <= i < rest.len() implies #[trigger] rest[i] == (BusEntry {
            bus: bus@,
            key: keys.drop_last()[i],
            count,
            weight: 1,
        }) by {
            assert(rest[i] == entries[i]);
        }
        lemma_count_queries(rest, bus, keys.drop_last(), count, key);
        let n = occurrences(keys.drop_last(), key);
        let last = entries[entries.len() - 1];
        assert(count * (n + 1) == count * n + count) by (nonlinear_arith);
        assert(count * (n + 0) == count * n);
        assert(entries.last() == last);
    } else {
        assert(count * 0 == 0);
    }
}

/// One table entry.
pub proof fn lemma_count_table(
    entries: Seq<BusEntry>,
    bus: &'static str,
    listed: Seq<int>,
    freq: int,
    key: Seq<int>,
)
    requires
        entries.len() == 1,
        entries[0] == (BusEntry { bus: bus@, key: listed, count: -freq, weight: 0 }),
    ensures
        weighted_count(entries, bus, key, 0) == if listed == key {
            -freq
        } else {
            0
        },
        weighted_count(entries, bus, key, 1) == 0,
{
    assert(entries.drop_last() =~= Seq::empty());
    assert(weighted_count(entries.drop_last(), bus, key, 0) == 0);
    assert(weighted_count(entries.drop_last(), bus, key, 1) == 0);
    assert(entries.last() == entries[0]);
}

} // verus!
