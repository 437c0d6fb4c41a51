//! Lookup interactions: what each row sends to and receives from a bus.

pub mod laws;

use vstd::prelude::*;

use crate::air::{Expr, Window};

verus! {

/// One interaction with a bus.
#[derive(Debug)]
pub struct Interaction {
    /// The bus.
    pub bus: &'static str,
    /// What is looked up.
    pub key: Vec<Expr>,
    /// How often: positive for a query, negative for a table entry.
    pub count: Expr,
    /// The most queries that one row can make through this interaction.
    pub weight: u32,
}

/// What an interaction amounts to at one row.
pub ghost struct BusEntry {
    /// The name of the bus.
    pub bus: Seq<char>,
    /// What is looked up.
    pub key: Seq<int>,
    /// How often.
    pub count: int,
    /// The most queries that one row can make.
    pub weight: u32,
}

/// A table entry that is read as often as a cell says.
pub open spec fn table_entry(bus: &'static str, key: Seq<int>, freq: int) -> BusEntry {
    BusEntry { bus: bus@, key, count: -freq, weight: 0 }
}

/// A query made as often as a cell says, at most once per row.
pub open spec fn query_entry(bus: &'static str, key: Seq<int>, count: int) -> BusEntry {
    BusEntry { bus: bus@, key, count, weight: 1 }
}

impl Interaction {
    /// What the interaction amounts to at one row.
    pub open spec fn entry(self, w: Window) -> BusEntry {
        BusEntry {
            bus: self.bus@,
            key: Seq::new(self.key@.len(), |i: int| self.key@[i].value(w)),
            count: self.count.value(w),
            weight: self.weight,
        }
    }
}

/// The interactions emitted so far.
#[derive(Debug)]
pub struct InteractionBuilder {
    /// The interactions, in order of emission.
    pub interactions: Vec<Interaction>,
}

impl InteractionBuilder {
    /// What the interactions amount to at one row, in order of emission.
    pub open spec fn entries(self, w: Window) -> Seq<BusEntry> {
        Seq::new(self.interactions@.len(), |i: int| self.interactions@[i].entry(w))
    }

    /// A builder with no interactions.
    pub fn new() -> (r: InteractionBuilder)
        ensures
            forall|w: Window| #[trigger] r.entries(w) == Seq::<BusEntry>::empty(),
    {
        let r = InteractionBuilder { interactions: Vec::new() };
        assert forall|w: Window| #[trigger] r.entries(w) == Seq::<BusEntry>::empty() by {
            assert(r.entries(w) =~= Seq::empty());
        }
        r
    }

    /// Adds an interaction.
    pub fn push_interaction(&mut self, bus: &'static str, key: Vec<Expr>, count: Expr, weight: u32)
        ensures
            forall|w: Window| #[trigger]
                final(self).entries(w) == old(self).entries(w).push(
                    (BusEntry {
                        bus: bus@,
                        key: Seq::new(key@.len(), |i: int| key@[i].value(w)),
                        count: count.value(w),
                        weight,
                    }),
                ),
    {
        let ghost before = *self;
        self.interactions.push(Interaction { bus, key, count, weight });
        proof {
            assert forall|w: Window| #[trigger]
                self.entries(w) == before.entries(w).push(
                    (BusEntry {
                        bus: bus@,
                        key: Seq::new(key@.len(), |i: int| key@[i].value(w)),
                        count: count.value(w),
                        weight,
                    }),
                ) by {
                assert(self.entries(w) =~= before.entries(w).push(
                    (BusEntry {
                        bus: bus@,
                        key: Seq::new(key@.len(), |i: int| key@[i].value(w)),
                        count: count.value(w),
                        weight,
                    }),
                ));
            }
        }
    }

    /// Adds the table entry of a column, read as often as another column says.
    pub fn push_table(&mut self, bus: &'static str, column: usize, freq: usize)
        ensures
            forall|w: Window| #[trigger]
                final(self).entries(w) == old(self).entries(w).push(
                    table_entry(
                        bus,
                        seq![w.cur[column as int] as int],
                        w.cur[freq as int] as int,
                    ),
                ),
    {
        let ghost before = *self;
        let mut key: Vec<Expr> = Vec::new();
        key.push(Expr::cur(column));
        let count = Expr::constant(0).minus(Expr::cur(freq));
        self.push_interaction(bus, key, count, 0);
        assert forall|w: Window| #[trigger]
            self.entries(w) == before.entries(w).push(
                table_entry(bus, seq![w.cur[column as int] as int], w.cur[freq as int] as int),
            ) by {
            assert(Seq::new(key@.len(), |i: int| key@[i].value(w)) =~= seq![
                w.cur[column as int] as int,
            ]);
        }
    }

    /// Adds a query for a column, made where another column is set.
    pub fn push_query(&mut self, bus: &'static str, column: usize, flag: usize)
        ensures
            forall|w: Window| #[trigger]
                final(self).entries(w) == old(self).entries(w).push(
                    query_entry(
                        bus,
                        seq![w.cur[column as int] as int],
                        w.cur[flag as int] as int,
                    ),
                ),
    {
        let ghost before = *self;
        let mut key: Vec<Expr> = Vec::new();
        key.push(Expr::cur(column));
        self.push_interaction(bus, key, Expr::cur(flag), 1);
        assert forall|w: Window| #[trigger]
            self.entries(w) == before.entries(w).push(
                query_entry(bus, seq![w.cur[column as int] as int], w.cur[flag as int] as int),
            ) by {
            assert(Seq::new(key@.len(), |i: int| key@[i].value(w)) =~= seq![
                w.cur[column as int] as int,
            ]);
        }
    }

    /// Adds one query on every row for each of the columns `start..start + n`.
    pub fn push_queries(&mut self, bus: &'static str, start: usize, n: usize)
        requires
            start + n <= usize::MAX,
        ensures
            forall|w: Window| #[trigger]
                final(self).entries(w) == old(self).entries(w) + cell_queries(
                    bus,
                    w.cur,
                    start as int,
                    n as nat,
                ),
    {
        let ghost before = *self;
        let mut i: usize = 0;
        assert forall|w: Window| #[trigger]
            self.entries(w) == before.entries(w) + cell_queries(bus, w.cur, start as int, 0) by {
            assert(self.entries(w) =~= before.entries(w) + cell_queries(
                bus,
                w.cur,
                start as int,
                0,
            ));
        }
        while i < n
            invariant
                i <= n,
                start + n <= usize::MAX,
                forall|w: Window| #[trigger]
                    self.entries(w) == before.entries(w) + cell_queries(
                        bus,
                        w.cur,
                        start as int,
                        i as nat,
                    ),
            decreases n - i,
        {
            let ghost mid = *self;
            let mut key: Vec<Expr> = Vec::new();
            key.push(Expr::cur(start + i));
            let one = Expr::constant(1);
            self.push_interaction(bus, key, one, 1);
            i = i + 1;
            assert forall|w: Window| #[trigger]
                self.entries(w) == before.entries(w) + cell_queries(
                    bus,
                    w.cur,
                    start as int,
                    i as nat,
                ) by {
                assert(Seq::new(key@.len(), |k: int| key@[k].value(w)) =~= seq![
                    w.cur[start + i - 1] as int,
                ]);
                assert(mid.entries(w) == before.entries(w) + cell_queries(
                    bus,
                    w.cur,
                    start as int,
                    (i - 1) as nat,
                ));
                assert(one.value(w) == 1);
                assert(self.entries(w) =~= before.entries(w) + cell_queries(
                    bus,
                    w.cur,
                    start as int,
                    i as nat,
                ));
            }
        }
    }
}

/// One query for each of the columns `start..start + n`.
pub open spec fn cell_queries(bus: &'static str, s: Seq<u64>, start: int, n: nat) -> Seq<BusEntry> {
    Seq::new(n, |i: int| query_entry(bus, seq![s[start + i] as int], 1))
}

/// How often some entries ask for a key of a bus, table entries counted
/// against queries.
pub open spec fn key_count(entries: Seq<BusEntry>, bus: &'static str, key: Seq<int>) -> int
    decreases entries.len(),
{
    if entries.len() == 0 {
        0
    } else {
        let last = entries.last();
        key_count(entries.drop_last(), bus, key) + if last.bus == bus@ && last.key == key {
            last.count
        } else {
            0
        }
    }
}

} // verus!
