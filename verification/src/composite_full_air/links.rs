//! Constraints that tie one group of cells to another.

use vstd::arithmetic::power::pow;
use vstd::prelude::*;

use crate::air::{polyval, polyval_expr, ConstraintBuilder, Expr, Rows, Window};
use crate::field::is_zero;

verus! {

/// Where the selector column is set, a column holds a public value.
pub open spec fn public_link_at(w: Window, gate: int, column: int, public: int, i: int) -> bool {
    is_zero(w.cur[gate] * (w.cur[column + i] - w.public[public + i]))
}

/// Where the selector column is set, `n` columns hold public values.
pub open spec fn public_link(w: Window, gate: int, column: int, public: int, n: int) -> bool {
    forall|i: int| 0 <= i < n ==> #[trigger] public_link_at(w, gate, column, public, i)
}

/// Where the selector column is set, two columns agree.
pub open spec fn column_link_at(w: Window, gate: int, left: int, right: int, i: int) -> bool {
    is_zero(w.cur[gate] * (w.cur[left + i] - w.cur[right + i]))
}

/// Where the selector column is set, two groups of `n` columns agree.
pub open spec fn column_link(w: Window, gate: int, left: int, right: int, n: int) -> bool {
    forall|i: int| 0 <= i < n ==> #[trigger] column_link_at(w, gate, left, right, i)
}

/// A column holds a public value.
pub open spec fn public_value_at(w: Window, column: int, public: int, i: int) -> bool {
    is_zero(w.cur[column + i] - w.public[public + i])
}

/// `n` columns hold public values.
pub open spec fn public_values(w: Window, column: int, public: int, n: int) -> bool {
    forall|i: int| 0 <= i < n ==> #[trigger] public_value_at(w, column, public, i)
}

/// Two columns agree.
pub open spec fn same_value_at(w: Window, left: int, right: int, i: int) -> bool {
    is_zero(w.cur[left + i] - w.cur[right + i])
}

/// Two groups of `n` columns agree.
pub open spec fn same_values(w: Window, left: int, right: int, n: int) -> bool {
    forall|i: int| 0 <= i < n ==> #[trigger] same_value_at(w, left, right, i)
}

/// Where the selector is not zero, a column packs four bytes in base 256.
pub open spec fn pack_link_at(gate: int, s: Seq<u64>, packed: int, bytes: int, i: int) -> bool {
    is_zero(gate * (s[packed + i] - polyval(s, bytes + i * 4, 4, 256)))
}

/// Where the selector is not zero, `n` columns pack four bytes each in base 256.
pub open spec fn pack_link(gate: int, s: Seq<u64>, packed: int, bytes: int, n: int) -> bool {
    forall|i: int| 0 <= i < n ==> #[trigger] pack_link_at(gate, s, packed, bytes, i)
}

/// Emits a [`public_link`].
pub fn emit_public_link(
    b: &mut ConstraintBuilder,
    gate: usize,
    column: usize,
    public: usize,
    n: usize,
)
    requires
        column + n <= usize::MAX,
        public + n <= usize::MAX,
    ensures
        forall|w: Window| #[trigger]
            final(b).holds(w) <==> (old(b).holds(w) && public_link(
                w,
                gate as int,
                column as int,
                public as int,
                n as int,
            )),
        forall|d: nat| d >= 2 && old(b).degree_at_most(d) ==> #[trigger] final(b).degree_at_most(d),
{
    let mut i: usize = 0;
    while i < n
        invariant
            i <= n,
            column + n <= usize::MAX,
            public + n <= usize::MAX,
            forall|w: Window| #[trigger]
                b.holds(w) <==> (old(b).holds(w) && public_link(
                    w,
                    gate as int,
                    column as int,
                    public as int,
                    i as int,
                )),
            forall|d: nat| d >= 2 && old(b).degree_at_most(d) ==> #[trigger] b.degree_at_most(d),
        decreases n - i,
    {
        let ghost before = *b;
        let diff = Expr::cur(column + i).minus(Expr::public(public + i));
        let e = Expr::cur(gate).times(diff);
        b.assert_zero(e);
        i = i + 1;
        assert forall|w: Window| #[trigger]
            b.holds(w) <==> (old(b).holds(w) && public_link(
                w,
                gate as int,
                column as int,
                public as int,
                i as int,
            )) by {
            assert(e.value(w) == w.cur[gate as int] * diff.value(w));
            assert(b.holds(w) <==> (before.holds(w) && public_link_at(
                w,
                gate as int,
                column as int,
                public as int,
                i - 1,
            )));
        }
    }
}

/// Emits a [`column_link`].
pub fn emit_column_link(
    b: &mut ConstraintBuilder,
    gate: usize,
    left: usize,
    right: usize,
    n: usize,
)
    requires
        left + n <= usize::MAX,
        right + n <= usize::MAX,
    ensures
        forall|w: Window| #[trigger]
            final(b).holds(w) <==> (old(b).holds(w) && column_link(
                w,
                gate as int,
                left as int,
                right as int,
                n as int,
            )),
        forall|d: nat| d >= 2 && old(b).degree_at_most(d) ==> #[trigger] final(b).degree_at_most(d),
{
    let mut i: usize = 0;
    while i < n
        invariant
            i <= n,
            left + n <= usize::MAX,
            right + n <= usize::MAX,
            forall|w: Window| #[trigger]
                b.holds(w) <==> (old(b).holds(w) && column_link(
                    w,
                    gate as int,
                    left as int,
                    right as int,
                    i as int,
                )),
            forall|d: nat| d >= 2 && old(b).degree_at_most(d) ==> #[trigger] b.degree_at_most(d),
        decreases n - i,
    {
        let ghost before = *b;
        let diff = Expr::cur(left + i).minus(Expr::cur(right + i));
        let e = Expr::cur(gate).times(diff);
        b.assert_zero(e);
        i = i + 1;
        assert forall|w: Window| #[trigger]
            b.holds(w) <==> (old(b).holds(w) && column_link(
                w,
                gate as int,
                left as int,
                right as int,
                i as int,
            )) by {
            assert(e.value(w) == w.cur[gate as int] * diff.value(w));
            assert(b.holds(w) <==> (before.holds(w) && column_link_at(
                w,
                gate as int,
                left as int,
                right as int,
                i - 1,
            )));
        }
    }
}

/// Emits [`public_values`] on the last row.
pub fn emit_last_public(b: &mut ConstraintBuilder, column: usize, public: usize, n: usize)
    requires
        column + n <= usize::MAX,
        public + n <= usize::MAX,
    ensures
        forall|w: Window| #[trigger]
            final(b).holds(w) <==> (old(b).holds(w) && (w.last ==> public_values(
                w,
                column as int,
                public as int,
                n as int,
            ))),
        forall|d: nat| d >= 1 && old(b).degree_at_most(d) ==> #[trigger] final(b).degree_at_most(d),
{
    let mut i: usize = 0;
    while i < n
        invariant
            i <= n,
            column + n <= usize::MAX,
            public + n <= usize::MAX,
            forall|w: Window| #[trigger]
                b.holds(w) <==> (old(b).holds(w) && (w.last ==> public_values(
                    w,
                    column as int,
                    public as int,
                    i as int,
                ))),
            forall|d: nat| d >= 1 && old(b).degree_at_most(d) ==> #[trigger] b.degree_at_most(d),
        decreases n - i,
    {
        let ghost before = *b;
        let e = Expr::cur(column + i).minus(Expr::public(public + i));
        b.assert_zero_on(Rows::Last, e);
        i = i + 1;
        assert forall|w: Window| #[trigger]
            b.holds(w) <==> (old(b).holds(w) && (w.last ==> public_values(
                w,
                column as int,
                public as int,
                i as int,
            ))) by {
            assert(e.value(w) == w.cur[column + i - 1] - w.public[public + i - 1]);
            assert(b.holds(w) <==> (before.holds(w) && (w.last ==> public_value_at(
                w,
                column as int,
                public as int,
                i - 1,
            ))));
        }
    }
}

/// Emits [`same_values`] on the last row.
pub fn emit_last_same(b: &mut ConstraintBuilder, left: usize, right: usize, n: usize)
    requires
        left + n <= usize::MAX,
        right + n <= usize::MAX,
    ensures
        forall|w: Window| #[trigger]
            final(b).holds(w) <==> (old(b).holds(w) && (w.last ==> same_values(
                w,
                left as int,
                right as int,
                n as int,
            ))),
        forall|d: nat| d >= 1 && old(b).degree_at_most(d) ==> #[trigger] final(b).degree_at_most(d),
{
    let mut i: usize = 0;
    while i < n
        invariant
            i <= n,
            left + n <= usize::MAX,
            right + n <= usize::MAX,
            forall|w: Window| #[trigger]
                b.holds(w) <==> (old(b).holds(w) && (w.last ==> same_values(
                    w,
                    left as int,
                    right as int,
                    i as int,
                ))),
            forall|d: nat| d >= 1 && old(b).degree_at_most(d) ==> #[trigger] b.degree_at_most(d),
        decreases n - i,
    {
        let ghost before = *b;
        let e = Expr::cur(left + i).minus(Expr::cur(right + i));
        b.assert_zero_on(Rows::Last, e);
        i = i + 1;
        assert forall|w: Window| #[trigger]
            b.holds(w) <==> (old(b).holds(w) && (w.last ==> same_values(
                w,
                left as int,
                right as int,
                i as int,
            ))) by {
            assert(e.value(w) == w.cur[left + i - 1] - w.cur[right + i - 1]);
            assert(b.holds(w) <==> (before.holds(w) && (w.last ==> same_value_at(
                w,
                left as int,
                right as int,
                i - 1,
            ))));
        }
    }
}

/// Four bytes fit the trace's words.
pub proof fn lemma_pow_256()
    ensures
        pow(256, 4) == 0x1_0000_0000,
{
    vstd::arithmetic::power::lemma_pow_multiplies(2, 8, 4);
    vstd::arithmetic::power2::lemma2_to64();
    vstd::arithmetic::power2::lemma_pow2(8);
    vstd::arithmetic::power2::lemma_pow2(32);
}

/// Emits a [`pack_link`].
pub fn emit_pack_link(
    b: &mut ConstraintBuilder,
    gate: &Expr,
    packed: usize,
    bytes: usize,
    n: usize,
)
    requires
        gate.degree() <= 2,
        packed + n <= usize::MAX,
        bytes + n * 4 <= usize::MAX,
    ensures
        forall|w: Window| #[trigger]
            final(b).holds(w) <==> (old(b).holds(w) && pack_link(
                gate.value(w),
                w.cur,
                packed as int,
                bytes as int,
                n as int,
            )),
        forall|d: nat| d >= 3 && old(b).degree_at_most(d) ==> #[trigger] final(b).degree_at_most(d),
{
    proof {
        lemma_pow_256();
    }
    let mut i: usize = 0;
    while i < n
        invariant
            i <= n,
            gate.degree() <= 2,
            packed + n <= usize::MAX,
            bytes + n * 4 <= usize::MAX,
            pow(256, 4) == 0x1_0000_0000,
            forall|w: Window| #[trigger]
                b.holds(w) <==> (old(b).holds(w) && pack_link(
                    gate.value(w),
                    w.cur,
                    packed as int,
                    bytes as int,
                    i as int,
                )),
            forall|d: nat| d >= 3 && old(b).degree_at_most(d) ==> #[trigger] b.degree_at_most(d),
        decreases n - i,
    {
        let ghost before = *b;
        let diff = Expr::cur(packed + i).minus(polyval_expr(bytes + i * 4, 4, 256));
        let e = gate.dup().times(diff);
        b.assert_zero(e);
        i = i + 1;
        assert forall|w: Window| #[trigger]
            b.holds(w) <==> (old(b).holds(w) && pack_link(
                gate.value(w),
                w.cur,
                packed as int,
                bytes as int,
                i as int,
            )) by {
            assert(e.value(w) == gate.value(w) * diff.value(w));
            assert(b.holds(w) <==> (before.holds(w) && pack_link_at(
                gate.value(w),
                w.cur,
                packed as int,
                bytes as int,
                i - 1,
            )));
        }
    }
}

} // verus!
