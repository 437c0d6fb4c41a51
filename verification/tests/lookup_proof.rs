use std::collections::HashMap;

use ai_pow_zk::bus::InteractionBuilder;
use ai_pow_zk::composite_lookup_proof::{
    build_trace, UrangeBusDemoAir, COL_FREQ, COL_QUERY, COL_QUERY_FLAG, COL_TABLE, WIDTH,
};
use ai_pow_zk::air::{ConstraintBuilder, Expr, Rows};
use ai_pow_zk::matrix::RowMajorMatrix;
use p3_air::{check_all_constraints, Air, AirBuilder, BaseAir, WindowAccess};
use p3_goldilocks::Goldilocks;
use p3_matrix::dense::RowMajorMatrix as Dense;
use p3_field::integers::QuotientMap;
use p3_field::PrimeField64;

/// A constraint system of the library, as the proof system sees it.
struct System {
    width: usize,
    public: usize,
    rules: ConstraintBuilder,
    fixed: Option<Dense<Goldilocks>>,
}

impl BaseAir<Goldilocks> for System {
    fn width(&self) -> usize {
        self.width
    }
    fn num_public_values(&self) -> usize {
        self.public
    }
    fn preprocessed_width(&self) -> usize {
        self.fixed.as_ref().map_or(0, |m| m.width)
    }
    fn preprocessed_trace(&self) -> Option<Dense<Goldilocks>> {
        self.fixed.clone()
    }
}

/// A polynomial of the library, in the proof system's terms.
fn polynomial<AB: AirBuilder<F = Goldilocks>>(
    e: &Expr,
    cur: &[AB::Var],
    nxt: &[AB::Var],
    fixed: &[AB::Var],
    public: &[AB::PublicVar],
) -> AB::Expr {
    match e {
        Expr::Const(c) => AB::Expr::from(Goldilocks::new(*c)),
        Expr::Cur(i) => cur[*i].into(),
        Expr::Next(i) => nxt[*i].into(),
        Expr::Fixed(i) => fixed[*i].into(),
        Expr::Public(i) => public[*i].into(),
        Expr::Add(a, b) => {
            polynomial::<AB>(a, cur, nxt, fixed, public)
                + polynomial::<AB>(b, cur, nxt, fixed, public)
        }
        Expr::Sub(a, b) => {
            polynomial::<AB>(a, cur, nxt, fixed, public)
                - polynomial::<AB>(b, cur, nxt, fixed, public)
        }
        Expr::Mul(a, b) => {
            polynomial::<AB>(a, cur, nxt, fixed, public)
                * polynomial::<AB>(b, cur, nxt, fixed, public)
        }
    }
}

impl<AB: AirBuilder<F = Goldilocks>> Air<AB> for System {
    fn eval(&self, builder: &mut AB) {
        let main = builder.main();
        let cur = main.current_slice().to_vec();
        let nxt = main.next_slice().to_vec();
        let fixed = if self.fixed.is_some() {
            builder.preprocessed().current_slice().to_vec()
        } else {
            Vec::new()
        };
        let public = builder.public_values().to_vec();
        for c in &self.rules.constraints {
            let e = polynomial::<AB>(&c.expr, &cur, &nxt, &fixed, &public);
            match c.rows {
                Rows::All => builder.assert_zero(e),
                Rows::First => builder.when_first_row().assert_zero(e),
                Rows::Last => builder.when_last_row().assert_zero(e),
                Rows::Transition => builder.when_transition().assert_zero(e),
            }
        }
    }
}

/// A trace of the library, as the proof system sees it.
fn dense(m: &RowMajorMatrix) -> Dense<Goldilocks> {
    Dense::new(m.values.iter().map(|&v| Goldilocks::new(v)).collect(), m.width)
}

/// Whether a trace meets every constraint on every row.
fn accepts(system: &System, trace: &RowMajorMatrix) -> bool {
    check_all_constraints(system, &dense(trace), &[], Some(1)).is_ok()
}

/// The field element of an integer.
fn val(x: i64) -> u64 {
    <Goldilocks as QuotientMap<i64>>::from_int(x).as_canonical_u64()
}

/// The constraint system and the interactions with the bus.
fn system() -> (System, InteractionBuilder) {
    let mut rules = ConstraintBuilder::new();
    let mut buses = InteractionBuilder::new();
    UrangeBusDemoAir.eval(&mut rules, &mut buses);
    (System { width: WIDTH, public: 0, rules, fixed: None }, buses)
}

/// A polynomial's value on one row.
fn on_row(e: &Expr, row: &[u64]) -> Goldilocks {
    match e {
        Expr::Const(c) => Goldilocks::new(*c),
        Expr::Cur(i) => Goldilocks::new(row[*i]),
        Expr::Add(a, b) => on_row(a, row) + on_row(b, row),
        Expr::Sub(a, b) => on_row(a, row) - on_row(b, row),
        Expr::Mul(a, b) => on_row(a, row) * on_row(b, row),
        _ => unreachable!("an interaction reads its own row"),
    }
}

/// Whether every key is asked for as often as the tables say.
fn balances(buses: &InteractionBuilder, trace: &RowMajorMatrix) -> bool {
    let mut sums: HashMap<(&str, Vec<u64>), Goldilocks> = HashMap::new();
    for row in trace.values.chunks(trace.width) {
        for i in &buses.interactions {
            let key = i.key.iter().map(|e| on_row(e, row).as_canonical_u64()).collect();
            *sums.entry((i.bus, key)).or_default() += on_row(&i.count, row);
        }
    }
    sums.values().all(|s| s.as_canonical_u64() == 0)
}

/// Whether a trace meets the constraints and balances.
fn holds(trace: &RowMajorMatrix) -> bool {
    let (sys, buses) = system();
    accepts(&sys, trace) && balances(&buses, trace)
}

#[test]
fn no_queries_balances_via_batch_stark() {
    assert!(holds(&build_trace(8, &[], 0)), "empty-queries trace must verify");
}

#[test]
fn in_range_queries_balance() {
    assert!(holds(&build_trace(8, &[0, 1, 42, 100, 255], 0)), "in-range queries must verify");
}

#[test]
fn out_of_range_query_rejected_by_logup() {
    let mut trace = build_trace(8, &[0, 1, 42, 100, 255], 0);
    trace.values[2 * WIDTH + COL_QUERY] = val(300);
    assert!(!holds(&trace), "out-of-range query must reject");
}

#[test]
fn over_claimed_freq_rejected_by_logup() {
    let mut trace = build_trace(8, &[42], 0);
    trace.values[42 * WIDTH + COL_FREQ] = val(5);
    assert!(!holds(&trace), "over-claimed FREQ must reject");
}

#[test]
fn composite_lookup_proof_multi_query_same_value_balances() {
    assert!(holds(&build_trace(8, &[42, 42, 42, 100, 100, 0], 0)), "repeated queries must verify");
}

#[test]
fn dropped_query_flag_rejected_by_logup() {
    let mut trace = build_trace(8, &[42, 100], 0);
    trace.values[COL_QUERY_FLAG] = 0;
    assert!(!holds(&trace), "inconsistent QUERY_FLAG must reject");
}

#[test]
fn table_replays_its_last_entry() {
    let trace = build_trace(9, &[255, 255, 7], 3);
    assert_eq!(trace.values.len(), 512 * WIDTH);
    assert_eq!(trace.values[255 * WIDTH + COL_TABLE], 255);
    assert_eq!(trace.values[300 * WIDTH + COL_TABLE], 255);
    assert_eq!(trace.values[255 * WIDTH + COL_FREQ], 2);
    assert_eq!(trace.values[300 * WIDTH + COL_FREQ], 0);
    assert_eq!(trace.values[2 * WIDTH + COL_QUERY], 7);
    assert_eq!(trace.values[3 * WIDTH + COL_QUERY], 3);
    assert!(holds(&trace));
}

/// A query that the table does not cover is placed and not counted.
#[test]
fn uncovered_query_is_refused() {
    assert!(!holds(&build_trace(8, &[256], 0)));
    assert!(!holds(&build_trace(4, &[200], 0)));
}
