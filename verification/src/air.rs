//! Polynomial constraints over a two-row window of a trace.
//!
//! A chip states its rules by pushing [`Constraint`]s onto a
//! [`ConstraintBuilder`]. A constraint is a polynomial in the cells of the
//! current row, the next row, the fixed (preprocessed) row and the public
//! values, together with the rows on which it must vanish.

use vstd::arithmetic::power::pow;
use vstd::prelude::*;

use crate::field::{canonical, is_zero};

verus! {

/// What a constraint can see at one row of a trace.
pub ghost struct Window {
    /// The cells of this row.
    pub cur: Seq<u64>,
    /// The cells of the row below (the first row, on the last row).
    pub nxt: Seq<u64>,
    /// The cells of this row of the fixed trace.
    pub fixed: Seq<u64>,
    /// The public values.
    pub public: Seq<u64>,
    /// This is the first row.
    pub first: bool,
    /// This is the last row.
    pub last: bool,
}

impl Window {
    /// Every cell and public value is a canonical representative.
    pub open spec fn canonical(self) -> bool {
        canonical(self.cur) && canonical(self.nxt) && canonical(self.fixed) && canonical(
            self.public,
        )
    }
}

/// A polynomial in the cells of a window.
#[derive(Debug)]
pub enum Expr {
    /// A constant.
    Const(u64),
    /// A column of the current row.
    Cur(usize),
    /// A column of the next row.
    Next(usize),
    /// A column of the current fixed row.
    Fixed(usize),
    /// A public value.
    Public(usize),
    /// A sum.
    Add(Box<Expr>, Box<Expr>),
    /// A difference.
    Sub(Box<Expr>, Box<Expr>),
    /// A product.
    Mul(Box<Expr>, Box<Expr>),
}

/// The larger of two degrees.
pub open spec fn max_nat(a: nat, b: nat) -> nat {
    if a >= b {
        a
    } else {
        b
    }
}

impl Expr {
    /// The integer the polynomial takes on a window. Its residue is the field
    /// element the polynomial evaluates to.
    pub open spec fn value(self, w: Window) -> int
        decreases self,
    {
        match self {
            Expr::Const(c) => c as int,
            Expr::Cur(i) => w.cur[i as int] as int,
            Expr::Next(i) => w.nxt[i as int] as int,
            Expr::Fixed(i) => w.fixed[i as int] as int,
            Expr::Public(i) => w.public[i as int] as int,
            Expr::Add(a, b) => a.value(w) + b.value(w),
            Expr::Sub(a, b) => a.value(w) - b.value(w),
            Expr::Mul(a, b) => a.value(w) * b.value(w),
        }
    }

    /// An upper bound on the polynomial's total degree in the trace cells.
    pub open spec fn degree(self) -> nat
        decreases self,
    {
        match self {
            Expr::Const(c) => 0,
            Expr::Cur(i) => 1,
            Expr::Next(i) => 1,
            Expr::Fixed(i) => 1,
            Expr::Public(i) => 0,
            Expr::Add(a, b) => max_nat(a.degree(), b.degree()),
            Expr::Sub(a, b) => max_nat(a.degree(), b.degree()),
            Expr::Mul(a, b) => a.degree() + b.degree(),
        }
    }

    /// A copy of the polynomial.
    pub fn dup(&self) -> (r: Expr)
        ensures
            r == *self,
        decreases *self,
    {
        match self {
            Expr::Const(c) => Expr::Const(*c),
            Expr::Cur(i) => Expr::Cur(*i),
            Expr::Next(i) => Expr::Next(*i),
            Expr::Fixed(i) => Expr::Fixed(*i),
            Expr::Public(i) => Expr::Public(*i),
            Expr::Add(a, b) => Expr::Add(Box::new(a.dup()), Box::new(b.dup())),
            Expr::Sub(a, b) => Expr::Sub(Box::new(a.dup()), Box::new(b.dup())),
            Expr::Mul(a, b) => Expr::Mul(Box::new(a.dup()), Box::new(b.dup())),
        }
    }

    /// The sum of two polynomials.
    pub fn plus(self, other: Expr) -> (r: Expr)
        ensures
            forall|w: Window| #[trigger] r.value(w) == self.value(w) + other.value(w),
            r.degree() == max_nat(self.degree(), other.degree()),
    {
        Expr::Add(Box::new(self), Box::new(other))
    }

    /// The difference of two polynomials.
    pub fn minus(self, other: Expr) -> (r: Expr)
        ensures
            forall|w: Window| #[trigger] r.value(w) == self.value(w) - other.value(w),
            r.degree() == max_nat(self.degree(), other.degree()),
    {
        Expr::Sub(Box::new(self), Box::new(other))
    }

    /// The product of two polynomials.
    pub fn times(self, other: Expr) -> (r: Expr)
        ensures
            forall|w: Window| #[trigger] r.value(w) == self.value(w) * other.value(w),
            r.degree() == self.degree() + other.degree(),
    {
        Expr::Mul(Box::new(self), Box::new(other))
    }

    /// A constant polynomial.
    pub fn constant(c: u64) -> (r: Expr)
        ensures
            forall|w: Window| #[trigger] r.value(w) == c,
            r.degree() == 0,
    {
        Expr::Const(c)
    }

    /// A column of the current row.
    pub fn cur(i: usize) -> (r: Expr)
        ensures
            forall|w: Window| #[trigger] r.value(w) == w.cur[i as int],
            r.degree() == 1,
    {
        Expr::Cur(i)
    }

    /// A column of the next row.
    pub fn next(i: usize) -> (r: Expr)
        ensures
            forall|w: Window| #[trigger] r.value(w) == w.nxt[i as int],
            r.degree() == 1,
    {
        Expr::Next(i)
    }

    /// A column of the current fixed row.
    pub fn fixed(i: usize) -> (r: Expr)
        ensures
            forall|w: Window| #[trigger] r.value(w) == w.fixed[i as int],
            r.degree() == 1,
    {
        Expr::Fixed(i)
    }

    /// A public value.
    pub fn public(i: usize) -> (r: Expr)
        ensures
            forall|w: Window| #[trigger] r.value(w) == w.public[i as int],
            r.degree() == 0,
    {
        Expr::Public(i)
    }
}

/// The rows on which a constraint must vanish.
#[derive(Clone, Copy, Debug, PartialEq, Eq, Structural)]
pub enum Rows {
    /// Every row.
    All,
    /// The first row.
    First,
    /// The last row.
    Last,
    /// Every row but the last.
    Transition,
}

impl Rows {
    /// The window's row is one of these rows.
    pub open spec fn selects(self, w: Window) -> bool {
        match self {
            Rows::All => true,
            Rows::First => w.first,
            Rows::Last => w.last,
            Rows::Transition => !w.last,
        }
    }
}

/// A polynomial that must vanish on some rows.
#[derive(Debug)]
pub struct Constraint {
    /// The rows.
    pub rows: Rows,
    /// The polynomial.
    pub expr: Expr,
}

impl Constraint {
    /// The constraint is met at a window.
    pub open spec fn holds(self, w: Window) -> bool {
        self.rows.selects(w) ==> is_zero(self.expr.value(w))
    }
}

/// The boolean check `x * (x - 1) == 0`.
pub open spec fn is_bool(x: int) -> bool {
    is_zero(x * (x - 1))
}

/// The range check `x * (x - 1) * (x - 2) == 0`.
pub open spec fn is_ternary(x: int) -> bool {
    is_zero(x * (x - 1) * (x - 2))
}

/// The columns `start..start + n` of a row all pass the boolean check.
pub open spec fn all_bool(s: Seq<u64>, start: int, n: int) -> bool {
    forall|j: int| start <= j < start + n ==> is_bool((#[trigger] s[j]) as int)
}

/// The columns `start..start + n` of a row all pass the boolean check,
/// where `gate` is not zero.
pub open spec fn all_bool_when(gate: int, s: Seq<u64>, start: int, n: int) -> bool {
    forall|j: int|
        start <= j < start + n ==> is_zero(gate * (((#[trigger] s[j]) as int) * (s[j] - 1)))
}

/// The columns `start..start + n` of a row all pass the ternary check.
pub open spec fn all_ternary(s: Seq<u64>, start: int, n: int) -> bool {
    forall|j: int| start <= j < start + n ==> is_ternary((#[trigger] s[j]) as int)
}

/// The columns `start..start + n` of a row are all zero.
pub open spec fn all_zero(s: Seq<u64>, start: int, n: int) -> bool {
    forall|j: int| start <= j < start + n ==> is_zero((#[trigger] s[j]) as int)
}

/// The sum of the columns `start..start + n`.
pub open spec fn sum_cells(s: Seq<u64>, start: int, n: nat) -> int
    decreases n,
{
    if n == 0 {
        0
    } else {
        sum_cells(s, start, (n - 1) as nat) + s[start + n - 1]
    }
}

/// The columns `start..start + n` read as digits in a base, least
/// significant first.
pub open spec fn polyval(s: Seq<u64>, start: int, n: nat, base: int) -> int
    decreases n,
{
    if n == 0 {
        0
    } else {
        polyval(s, start, (n - 1) as nat, base) + s[start + n - 1] * pow(base, (n - 1) as nat)
    }
}

/// The inner product of the columns `a..a + n` of one row and `b..b + n` of
/// another.
pub open spec fn dot_cells(s: Seq<u64>, a: int, t: Seq<u64>, b: int, n: nat) -> int
    decreases n,
{
    if n == 0 {
        0
    } else {
        dot_cells(s, a, t, b, (n - 1) as nat) + s[a + n - 1] * t[b + n - 1]
    }
}

/// The columns `start..start + n`, each times its position, added up.
pub open spec fn index_sum(s: Seq<u64>, start: int, n: nat) -> int
    decreases n,
{
    if n == 0 {
        0
    } else {
        index_sum(s, start, (n - 1) as nat) + s[start + n - 1] * (n - 1)
    }
}

/// The inner product of the columns `a..a + n` of one row and every `step`-th
/// column from `b` on of another.
pub open spec fn strided_dot(s: Seq<u64>, a: int, t: Seq<u64>, b: int, step: int, n: nat) -> int
    decreases n,
{
    if n == 0 {
        0
    } else {
        strided_dot(s, a, t, b, step, (n - 1) as nat) + s[a + n - 1] * t[b + (n - 1) * step]
    }
}

/// The current row's columns `start..start + n`, each times its position,
/// added up.
pub fn index_sum_expr(start: usize, n: usize) -> (r: Expr)
    requires
        start + n <= usize::MAX,
        n <= 64,
    ensures
        forall|w: Window| #[trigger] r.value(w) == index_sum(w.cur, start as int, n as nat),
        r.degree() <= 1,
{
    let mut acc = Expr::constant(0);
    let mut i: usize = 0;
    while i < n
        invariant
            i <= n <= 64,
            start + n <= usize::MAX,
            forall|w: Window| #[trigger] acc.value(w) == index_sum(w.cur, start as int, i as nat),
            acc.degree() <= 1,
        decreases n - i,
    {
        let ghost before = acc;
        let term = Expr::cur(start + i).times(Expr::constant(i as u64));
        acc = acc.plus(term);
        i = i + 1;
        assert forall|w: Window| #[trigger]
            acc.value(w) == index_sum(w.cur, start as int, i as nat) by {
            assert(before.value(w) == index_sum(w.cur, start as int, (i - 1) as nat));
            assert(term.value(w) == w.cur[start + i - 1] * (i - 1));
        }
    }
    acc
}

/// The inner product of the current row's columns `a..a + n` and every
/// `step`-th column of the next row from `b` on.
pub fn strided_dot_next_expr(a: usize, b: usize, step: usize, n: usize) -> (r: Expr)
    requires
        a + n <= usize::MAX,
        b + n * step <= usize::MAX,
    ensures
        forall|w: Window| #[trigger]
            r.value(w) == strided_dot(w.cur, a as int, w.nxt, b as int, step as int, n as nat),
        r.degree() <= 2,
{
    let mut acc = Expr::constant(0);
    let mut i: usize = 0;
    while i < n
        invariant
            i <= n,
            a + n <= usize::MAX,
            b + n * step <= usize::MAX,
            forall|w: Window| #[trigger]
                acc.value(w) == strided_dot(
                    w.cur,
                    a as int,
                    w.nxt,
                    b as int,
                    step as int,
                    i as nat,
                ),
            acc.degree() <= 2,
        decreases n - i,
    {
        let ghost before = acc;
        assert(i * step <= n * step) by (nonlinear_arith)
            requires
                i <= n,
        ;
        let term = Expr::cur(a + i).times(Expr::next(b + i * step));
        acc = acc.plus(term);
        i = i + 1;
        assert forall|w: Window| #[trigger]
            acc.value(w) == strided_dot(
                w.cur,
                a as int,
                w.nxt,
                b as int,
                step as int,
                i as nat,
            ) by {
            assert(before.value(w) == strided_dot(
                w.cur,
                a as int,
                w.nxt,
                b as int,
                step as int,
                (i - 1) as nat,
            ));
            assert(term.value(w) == w.cur[a + i - 1] * w.nxt[b + (i - 1) * step]);
        }
    }
    acc
}

/// The sum of the current row's columns `start..start + n`.
pub fn sum_expr(start: usize, n: usize) -> (r: Expr)
    requires
        start + n <= usize::MAX,
    ensures
        forall|w: Window| #[trigger] r.value(w) == sum_cells(w.cur, start as int, n as nat),
        r.degree() <= 1,
{
    let mut acc = Expr::constant(0);
    let mut i: usize = 0;
    while i < n
        invariant
            i <= n,
            start + n <= usize::MAX,
            forall|w: Window| #[trigger] acc.value(w) == sum_cells(w.cur, start as int, i as nat),
            acc.degree() <= 1,
        decreases n - i,
    {
        let ghost before = acc;
        acc = acc.plus(Expr::cur(start + i));
        i = i + 1;
        assert forall|w: Window| #[trigger]
            acc.value(w) == sum_cells(w.cur, start as int, i as nat) by {
            assert(before.value(w) == sum_cells(w.cur, start as int, (i - 1) as nat));
        }
    }
    acc
}

/// The current row's columns `start..start + n` as digits in a base.
pub fn polyval_expr(start: usize, n: usize, base: u64) -> (r: Expr)
    requires
        start + n <= usize::MAX,
        base > 0,
        pow(base as int, n as nat) <= u64::MAX,
    ensures
        forall|w: Window| #[trigger]
            r.value(w) == polyval(w.cur, start as int, n as nat, base as int),
        r.degree() <= 1,
{
    let mut acc = Expr::constant(0);
    let mut weight: u64 = 1;
    let mut i: usize = 0;
    proof {
        vstd::arithmetic::power::lemma_pow0(base as int);
    }
    while i < n
        invariant
            i <= n,
            start + n <= usize::MAX,
            base > 0,
            pow(base as int, n as nat) <= u64::MAX,
            weight == pow(base as int, i as nat),
            forall|w: Window| #[trigger]
                acc.value(w) == polyval(w.cur, start as int, i as nat, base as int),
            acc.degree() <= 1,
        decreases n - i,
    {
        let ghost before = acc;
        acc = acc.plus(Expr::cur(start + i).times(Expr::constant(weight)));
        proof {
            vstd::arithmetic::power::lemma_pow_increases(base as nat, (i + 1) as nat, n as nat);
            vstd::arithmetic::power::lemma_pow_adds(base as int, i as nat, 1);
            vstd::arithmetic::power::lemma_pow1(base as int);
        }
        weight = weight * base;
        i = i + 1;
        assert forall|w: Window| #[trigger]
            acc.value(w) == polyval(w.cur, start as int, i as nat, base as int) by {
            assert(before.value(w) == polyval(
                w.cur,
                start as int,
                (i - 1) as nat,
                base as int,
            ));
        }
    }
    acc
}

/// The inner product of the current row's columns `a..a + n` and `b..b + n`.
pub fn dot_expr(a: usize, b: usize, n: usize) -> (r: Expr)
    requires
        a + n <= usize::MAX,
        b + n <= usize::MAX,
    ensures
        forall|w: Window| #[trigger]
            r.value(w) == dot_cells(w.cur, a as int, w.cur, b as int, n as nat),
        r.degree() <= 2,
{
    let mut acc = Expr::constant(0);
    let mut i: usize = 0;
    while i < n
        invariant
            i <= n,
            a + n <= usize::MAX,
            b + n <= usize::MAX,
            forall|w: Window| #[trigger]
                acc.value(w) == dot_cells(w.cur, a as int, w.cur, b as int, i as nat),
            acc.degree() <= 2,
        decreases n - i,
    {
        let ghost before = acc;
        acc = acc.plus(Expr::cur(a + i).times(Expr::cur(b + i)));
        i = i + 1;
        assert forall|w: Window| #[trigger]
            acc.value(w) == dot_cells(w.cur, a as int, w.cur, b as int, i as nat) by {
            assert(before.value(w) == dot_cells(
                w.cur,
                a as int,
                w.cur,
                b as int,
                (i - 1) as nat,
            ));
        }
    }
    acc
}

/// The inner product of the current row's columns `a..a + n` and the next
/// row's columns `b..b + n`.
pub fn dot_next_expr(a: usize, b: usize, n: usize) -> (r: Expr)
    requires
        a + n <= usize::MAX,
        b + n <= usize::MAX,
    ensures
        forall|w: Window| #[trigger]
            r.value(w) == dot_cells(w.cur, a as int, w.nxt, b as int, n as nat),
        r.degree() <= 2,
{
    let mut acc = Expr::constant(0);
    let mut i: usize = 0;
    while i < n
        invariant
            i <= n,
            a + n <= usize::MAX,
            b + n <= usize::MAX,
            forall|w: Window| #[trigger]
                acc.value(w) == dot_cells(w.cur, a as int, w.nxt, b as int, i as nat),
            acc.degree() <= 2,
        decreases n - i,
    {
        let ghost before = acc;
        acc = acc.plus(Expr::cur(a + i).times(Expr::next(b + i)));
        i = i + 1;
        assert forall|w: Window| #[trigger]
            acc.value(w) == dot_cells(w.cur, a as int, w.nxt, b as int, i as nat) by {
            assert(before.value(w) == dot_cells(
                w.cur,
                a as int,
                w.nxt,
                b as int,
                (i - 1) as nat,
            ));
        }
    }
    acc
}

/// The constraints emitted so far.
#[derive(Debug)]
pub struct ConstraintBuilder {
    /// The constraints, in order of emission.
    pub constraints: Vec<Constraint>,
}

impl ConstraintBuilder {
    /// Every constraint is met at a window.
    pub open spec fn holds(self, w: Window) -> bool {
        forall|i: int|
            0 <= i < self.constraints@.len() ==> (#[trigger] self.constraints@[i]).holds(w)
    }

    /// Every constraint has at most this degree.
    pub open spec fn degree_at_most(self, d: nat) -> bool {
        forall|i: int|
            0 <= i < self.constraints@.len() ==> (#[trigger] self.constraints@[i]).expr.degree()
                <= d
    }

    /// A builder with no constraints.
    pub fn new() -> (r: ConstraintBuilder)
        ensures
            r.constraints@.len() == 0,
            forall|w: Window| #[trigger] r.holds(w),
            forall|d: nat| #[trigger] r.degree_at_most(d),
    {
        ConstraintBuilder { constraints: Vec::new() }
    }

    /// Requires a polynomial to vanish on some rows.
    pub fn assert_zero_on(&mut self, rows: Rows, expr: Expr)
        ensures
            forall|w: Window| #[trigger]
                final(self).holds(w) <==> (old(self).holds(w) && (rows.selects(w) ==> is_zero(
                    expr.value(w),
                ))),
            forall|d: nat| #[trigger]
                final(self).degree_at_most(d) <==> (old(self).degree_at_most(d) && expr.degree()
                    <= d),
    {
        let ghost before = *self;
        self.constraints.push(Constraint { rows, expr });
        proof {
            let n = before.constraints@.len() as int;
            assert(self.constraints@[n] == (Constraint { rows, expr }));
            assert(forall|i: int|
                0 <= i < n ==> self.constraints@[i] == #[trigger] before.constraints@[i]);
            assert forall|w: Window| #[trigger]
                self.holds(w) <==> (before.holds(w) && (rows.selects(w) ==> is_zero(
                    expr.value(w),
                ))) by {
                if self.holds(w) {
                    assert(self.constraints@[n].holds(w));
                    assert forall|i: int| 0 <= i < before.constraints@.len() implies (
                    #[trigger] before.constraints@[i]).holds(w) by {
                        assert(self.constraints@[i].holds(w));
                    }
                }
            }
            assert forall|d: nat| #[trigger]
                self.degree_at_most(d) <==> (before.degree_at_most(d) && expr.degree()
                    <= d) by {
                if self.degree_at_most(d) {
                    assert(self.constraints@[n].expr.degree() <= d);
                    assert forall|i: int| 0 <= i < before.constraints@.len() implies (
                    #[trigger] before.constraints@[i]).expr.degree() <= d by {
                        assert(self.constraints@[i].expr.degree() <= d);
                    }
                }
            }
        }
    }

    /// Takes over the constraints of another builder.
    pub fn append(&mut self, other: ConstraintBuilder)
        ensures
            forall|w: Window| #[trigger]
                final(self).holds(w) <==> (old(self).holds(w) && other.holds(w)),
            forall|d: nat| #[trigger]
                final(self).degree_at_most(d) <==> (old(self).degree_at_most(d)
                    && other.degree_at_most(d)),
    {
        let ghost before = *self;
        let ghost added = other;
        let mut other = other;
        self.constraints.append(&mut other.constraints);
        proof {
            let n = before.constraints@.len() as int;
            let all = self.constraints@;
            assert(all == before.constraints@ + added.constraints@);
            assert(forall|i: int| 0 <= i < n ==> all[i] == #[trigger] before.constraints@[i]);
            assert(forall|i: int|
                0 <= i < added.constraints@.len() ==> all[n + i]
                    == #[trigger] added.constraints@[i]);
            assert forall|w: Window| #[trigger]
                self.holds(w) <==> (before.holds(w) && added.holds(w)) by {
                if self.holds(w) {
                    assert forall|i: int| 0 <= i < n implies (
                    #[trigger] before.constraints@[i]).holds(w) by {
                        assert(all[i].holds(w));
                    }
                    assert forall|i: int| 0 <= i < added.constraints@.len() implies (
                    #[trigger] added.constraints@[i]).holds(w) by {
                        assert(all[n + i].holds(w));
                    }
                }
                if before.holds(w) && added.holds(w) {
                    assert forall|i: int| 0 <= i < all.len() implies (#[trigger] all[i]).holds(
                        w,
                    ) by {
                        if i < n {
                            assert(before.constraints@[i].holds(w));
                        } else {
                            assert(added.constraints@[i - n].holds(w));
                        }
                    }
                }
            }
            assert forall|d: nat| #[trigger]
                self.degree_at_most(d) <==> (before.degree_at_most(d)
                    && added.degree_at_most(d)) by {
                if self.degree_at_most(d) {
                    assert forall|i: int| 0 <= i < n implies (
                    #[trigger] before.constraints@[i]).expr.degree() <= d by {
                        assert(all[i].expr.degree() <= d);
                    }
                    assert forall|i: int| 0 <= i < added.constraints@.len() implies (
                    #[trigger] added.constraints@[i]).expr.degree() <= d by {
                        assert(all[n + i].expr.degree() <= d);
                    }
                }
                if before.degree_at_most(d) && added.degree_at_most(d) {
                    assert forall|i: int| 0 <= i < all.len() implies (
                    #[trigger] all[i]).expr.degree() <= d by {
                        if i < n {
                            assert(before.constraints@[i].expr.degree() <= d);
                        } else {
                            assert(added.constraints@[i - n].expr.degree() <= d);
                        }
                    }
                }
            }
        }
    }

    /// Requires a polynomial to vanish on every row.
    pub fn assert_zero(&mut self, expr: Expr)
        ensures
            forall|w: Window| #[trigger]
                final(self).holds(w) <==> (old(self).holds(w) && is_zero(expr.value(w))),
            forall|d: nat| #[trigger]
                final(self).degree_at_most(d) <==> (old(self).degree_at_most(d) && expr.degree()
                    <= d),
    {
        self.assert_zero_on(Rows::All, expr);
    }

    /// Requires two polynomials to agree on every row.
    pub fn assert_eq(&mut self, left: Expr, right: Expr)
        ensures
            forall|w: Window| #[trigger]
                final(self).holds(w) <==> (old(self).holds(w) && is_zero(
                    left.value(w) - right.value(w),
                )),
            forall|d: nat| #[trigger]
                final(self).degree_at_most(d) <==> (old(self).degree_at_most(d) && max_nat(
                    left.degree(),
                    right.degree(),
                ) <= d),
    {
        self.assert_zero_on(Rows::All, left.minus(right));
    }

    /// Requires a column of the current row to be boolean on every row.
    pub fn assert_bool(&mut self, column: usize)
        ensures
            forall|w: Window| #[trigger]
                final(self).holds(w) <==> (old(self).holds(w) && is_bool(
                    w.cur[column as int] as int,
                )),
            forall|d: nat| #[trigger]
                final(self).degree_at_most(d) <==> (old(self).degree_at_most(d) && 2 <= d),
    {
        let x = Expr::cur(column);
        let y = Expr::cur(column).minus(Expr::constant(1));
        self.assert_zero_on(Rows::All, x.times(y));
    }

    /// Requires the columns `start..start + n` to be boolean on every row.
    pub fn assert_bools(&mut self, start: usize, n: usize)
        requires
            start + n <= usize::MAX,
        ensures
            forall|w: Window| #[trigger]
                final(self).holds(w) <==> (old(self).holds(w) && all_bool(
                    w.cur,
                    start as int,
                    n as int,
                )),
            forall|d: nat| #[trigger]
                final(self).degree_at_most(d) <==> (old(self).degree_at_most(d) && (n > 0 ==> 2
                    <= d)),
    {
        let mut i: usize = 0;
        while i < n
            invariant
                i <= n,
                start + n <= usize::MAX,
                forall|w: Window| #[trigger]
                    self.holds(w) <==> (old(self).holds(w) && all_bool(
                        w.cur,
                        start as int,
                        i as int,
                    )),
                forall|d: nat| #[trigger]
                    self.degree_at_most(d) <==> (old(self).degree_at_most(d) && (i > 0 ==> 2
                        <= d)),
            decreases n - i,
        {
            let ghost before = *self;
            self.assert_bool(start + i);
            i = i + 1;
            assert forall|w: Window| #[trigger]
                self.holds(w) <==> (old(self).holds(w) && all_bool(
                    w.cur,
                    start as int,
                    i as int,
                )) by {
                assert(self.holds(w) <==> (before.holds(w) && is_bool(
                    w.cur[start + i - 1] as int,
                )));
            }
        }
    }

    /// Requires `gate * x * (x - 1)` to vanish for each `x` of the columns
    /// `start..start + n`.
    pub fn assert_bools_when(&mut self, gate: &Expr, start: usize, n: usize)
        requires
            start + n <= usize::MAX,
        ensures
            forall|w: Window| #[trigger]
                final(self).holds(w) <==> (old(self).holds(w) && all_bool_when(
                    gate.value(w),
                    w.cur,
                    start as int,
                    n as int,
                )),
            forall|d: nat| #[trigger]
                final(self).degree_at_most(d) <==> (old(self).degree_at_most(d) && (n > 0
                    ==> gate.degree() + 2 <= d)),
    {
        let mut i: usize = 0;
        while i < n
            invariant
                i <= n,
                start + n <= usize::MAX,
                forall|w: Window| #[trigger]
                    self.holds(w) <==> (old(self).holds(w) && all_bool_when(
                        gate.value(w),
                        w.cur,
                        start as int,
                        i as int,
                    )),
                forall|d: nat| #[trigger]
                    self.degree_at_most(d) <==> (old(self).degree_at_most(d) && (i > 0
                        ==> gate.degree() + 2 <= d)),
            decreases n - i,
        {
            let ghost before = *self;
            let x = Expr::cur(start + i);
            let y = Expr::cur(start + i).minus(Expr::constant(1));
            let e = gate.dup().times(x.times(y));
            self.assert_zero(e);
            i = i + 1;
            assert forall|w: Window| #[trigger]
                self.holds(w) <==> (old(self).holds(w) && all_bool_when(
                    gate.value(w),
                    w.cur,
                    start as int,
                    i as int,
                )) by {
                assert(e.value(w) == gate.value(w) * (w.cur[start + i - 1] * (w.cur[start + i - 1]
                    - 1)));
                assert(self.holds(w) <==> (before.holds(w) && is_zero(e.value(w))));
            }
        }
    }

    /// Requires the columns `start..start + n` to be `0`, `1` or `2` on every
    /// row.
    pub fn assert_ternaries(&mut self, start: usize, n: usize)
        requires
            start + n <= usize::MAX,
        ensures
            forall|w: Window| #[trigger]
                final(self).holds(w) <==> (old(self).holds(w) && all_ternary(
                    w.cur,
                    start as int,
                    n as int,
                )),
            forall|d: nat| #[trigger]
                final(self).degree_at_most(d) <==> (old(self).degree_at_most(d) && (n > 0 ==> 3
                    <= d)),
    {
        let mut i: usize = 0;
        while i < n
            invariant
                i <= n,
                start + n <= usize::MAX,
                forall|w: Window| #[trigger]
                    self.holds(w) <==> (old(self).holds(w) && all_ternary(
                        w.cur,
                        start as int,
                        i as int,
                    )),
                forall|d: nat| #[trigger]
                    self.degree_at_most(d) <==> (old(self).degree_at_most(d) && (i > 0 ==> 3
                        <= d)),
            decreases n - i,
        {
            let ghost before = *self;
            let x = Expr::cur(start + i);
            let y = Expr::cur(start + i).minus(Expr::constant(1));
            let z = Expr::cur(start + i).minus(Expr::constant(2));
            let e = x.times(y).times(z);
            self.assert_zero(e);
            i = i + 1;
            assert forall|w: Window| #[trigger]
                self.holds(w) <==> (old(self).holds(w) && all_ternary(
                    w.cur,
                    start as int,
                    i as int,
                )) by {
                assert(e.value(w) == w.cur[start + i - 1] * (w.cur[start + i - 1] - 1) * (
                w.cur[start + i - 1] - 2));
                assert(self.holds(w) <==> (before.holds(w) && is_zero(e.value(w))));
            }
        }
    }

    /// Requires the columns `start..start + n` to be zero on the first row.
    pub fn assert_zeros_first(&mut self, start: usize, n: usize)
        requires
            start + n <= usize::MAX,
        ensures
            forall|w: Window| #[trigger]
                final(self).holds(w) <==> (old(self).holds(w) && (w.first ==> all_zero(
                    w.cur,
                    start as int,
                    n as int,
                ))),
            forall|d: nat| #[trigger]
                final(self).degree_at_most(d) <==> (old(self).degree_at_most(d) && (n > 0 ==> 1
                    <= d)),
    {
        let mut i: usize = 0;
        while i < n
            invariant
                i <= n,
                start + n <= usize::MAX,
                forall|w: Window| #[trigger]
                    self.holds(w) <==> (old(self).holds(w) && (w.first ==> all_zero(
                        w.cur,
                        start as int,
                        i as int,
                    ))),
                forall|d: nat| #[trigger]
                    self.degree_at_most(d) <==> (old(self).degree_at_most(d) && (i > 0 ==> 1
                        <= d)),
            decreases n - i,
        {
            let ghost before = *self;
            self.assert_zero_on(Rows::First, Expr::cur(start + i));
            i = i + 1;
            assert forall|w: Window| #[trigger]
                self.holds(w) <==> (old(self).holds(w) && (w.first ==> all_zero(
                    w.cur,
                    start as int,
                    i as int,
                ))) by {
                assert(self.holds(w) <==> (before.holds(w) && (w.first ==> is_zero(
                    w.cur[start + i - 1] as int,
                ))));
            }
        }
    }
}

} // verus!
