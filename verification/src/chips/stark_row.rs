//! The row-index chip: a column that counts the rows.

use vstd::prelude::*;

use crate::air::{ConstraintBuilder, Expr, Rows, Window};
use crate::composite_layout::STARK_ROW_IDX;
use crate::field::{
    enc, is_zero, lemma_enc_feq, lemma_enc_small, lemma_feq_canonical, lemma_zero_add, p,
    val_from_u64, Val,
};
use crate::matrix::{lemma_row_canonical, RowMajorMatrix};

verus! {

/// The row-index chip.
#[derive(Debug, Default, Clone, Copy)]
pub struct StarkRowChip;

/// The constraints of the row-index chip at one window: the first row is
/// zero, each row below is one more.
pub open spec fn stark_row_rules(w: Window) -> bool {
    let cur = w.cur[STARK_ROW_IDX as int];
    &&& w.first ==> is_zero(cur as int)
    &&& !w.last ==> is_zero(w.nxt[STARK_ROW_IDX as int] - (cur + 1))
}

impl StarkRowChip {
    /// The chip.
    pub fn new() -> (r: Self)
        ensures
            r == StarkRowChip,
    {
        StarkRowChip
    }

    /// Emits the constraints.
    pub fn eval(&self, builder: &mut ConstraintBuilder)
        ensures
            forall|w: Window| #[trigger]
                final(builder).holds(w) <==> (old(builder).holds(w) && stark_row_rules(w)),
            forall|d: nat| #[trigger]
                final(builder).degree_at_most(d) <==> (old(builder).degree_at_most(d) && 1 <= d),
    {
        builder.assert_zero_on(Rows::First, Expr::cur(STARK_ROW_IDX));
        let ghost b1 = *builder;
        let next = Expr::cur(STARK_ROW_IDX).plus(Expr::constant(1));
        let e = Expr::next(STARK_ROW_IDX).minus(next);
        builder.assert_zero_on(Rows::Transition, e);
        assert forall|w: Window| #[trigger]
            builder.holds(w) <==> (old(builder).holds(w) && stark_row_rules(w)) by {
            assert(b1.holds(w) <==> (old(builder).holds(w) && (w.first ==> is_zero(
                w.cur[STARK_ROW_IDX as int] as int,
            ))));
            assert(e.value(w) == w.nxt[STARK_ROW_IDX as int] - next.value(w));
        }
    }

    /// Writes a row's index into the row.
    pub fn fill_row(&self, row_idx: usize, row: &mut [Val])
        requires
            old(row)@.len() > STARK_ROW_IDX,
        ensures
            final(row)@ == old(row)@.update(STARK_ROW_IDX as int, enc(row_idx as int) as u64),
    {
        proof {
            lemma_enc_feq(row_idx as int);
        }
        row[STARK_ROW_IDX] = val_from_u64(row_idx as u64);
    }
}

/// In any trace that meets the rules, the column holds the row's own index.
pub proof fn column_counts_rows(m: RowMajorMatrix, r: int)
    requires
        m.wf(),
        m.width > STARK_ROW_IDX,
        m.spec_height() <= p(),
        m.satisfies(|w: Window| stark_row_rules(w)),
        0 <= r < m.spec_height(),
    ensures
        m.row(r)[STARK_ROW_IDX as int] == r,
    decreases r,
{
    let rule = |w: Window| stark_row_rules(w);
    lemma_row_canonical(m, r);
    let here = m.row(r)[STARK_ROW_IDX as int] as int;
    if r == 0 {
        assert(rule(m.window(0, Seq::empty(), Seq::empty())));
        lemma_feq_canonical(here, 0);
    } else {
        column_counts_rows(m, r - 1);
        assert(rule(m.window(r - 1, Seq::empty(), Seq::empty())));
        lemma_feq_canonical(here, r);
    }
}

/// A trace whose column holds each row's index meets the rules.
pub proof fn counted_trace_meets_rules(m: RowMajorMatrix)
    requires
        m.wf(),
        m.width > STARK_ROW_IDX,
        forall|r: int|
            0 <= r < m.spec_height() ==> (#[trigger] m.row(r))[STARK_ROW_IDX as int] == enc(r),
    ensures
        m.satisfies(|w: Window| stark_row_rules(w)),
{
    let rule = |w: Window| stark_row_rules(w);
    assert forall|r: int| 0 <= r < m.spec_height() implies rule(
        #[trigger] m.window(r, Seq::empty(), Seq::empty()),
    ) by {
        let w = m.window(r, Seq::empty(), Seq::empty());
        assert(m.row(r)[STARK_ROW_IDX as int] == enc(r));
        if r == 0 {
            lemma_enc_small(0);
        }
        if r + 1 < m.spec_height() {
            assert(m.row(r + 1)[STARK_ROW_IDX as int] == enc(r + 1));
            lemma_enc_feq(r);
            lemma_enc_feq(r + 1);
            lemma_zero_add(enc(r + 1) - (r + 1), enc(r) - r);
        }
    }
}

} // verus!
