use ai_pow_zk::chips::stark_row::StarkRowChip;
use ai_pow_zk::composite_layout::{MIN_STARK_LEN, STARK_ROW_IDX, TOTAL_TRACE_WIDTH};
use ai_pow_zk::air::{ConstraintBuilder, Expr, Rows};
use ai_pow_zk::matrix::RowMajorMatrix;
use p3_air::{check_all_constraints, Air, AirBuilder, BaseAir, WindowAccess};
use p3_goldilocks::Goldilocks;
use p3_matrix::dense::RowMajorMatrix as Dense;
use p3_field::integers::QuotientMap;
use p3_field::PrimeField64;

/// A constraint system of the library, as the proof system sees it.
struct System {
    width: usize,
    public: usize,
    rules: ConstraintBuilder,
    fixed: Option<Dense<Goldilocks>>,
}

impl BaseAir<Goldilocks> for System {
    fn width(&self) -> usize {
        self.width
    }
    fn num_public_values(&self) -> usize {
        self.public
    }
    fn preprocessed_width(&self) -> usize {
        self.fixed.as_ref().map_or(0, |m| m.width)
    }
    fn preprocessed_trace(&self) -> Option<Dense<Goldilocks>> {
        self.fixed.clone()
    }
}

/// A polynomial of the library, in the proof system's terms.
fn polynomial<AB: AirBuilder<F = Goldilocks>>(
    e: &Expr,
    cur: &[AB::Var],
    nxt: &[AB::Var],
    fixed: &[AB::Var],
    public: &[AB::PublicVar],
) -> AB::Expr {
    match e {
        Expr::Const(c) => AB::Expr::from(Goldilocks::new(*c)),
        Expr::Cur(i) => cur[*i].into(),
        Expr::Next(i) => nxt[*i].into(),
        Expr::Fixed(i) => fixed[*i].into(),
        Expr::Public(i) => public[*i].into(),
        Expr::Add(a, b) => {
            polynomial::<AB>(a, cur, nxt, fixed, public)
                + polynomial::<AB>(b, cur, nxt, fixed, public)
        }
        Expr::Sub(a, b) => {
            polynomial::<AB>(a, cur, nxt, fixed, public)
                - polynomial::<AB>(b, cur, nxt, fixed, public)
        }
        Expr::Mul(a, b) => {
            polynomial::<AB>(a, cur, nxt, fixed, public)
                * polynomial::<AB>(b, cur, nxt, fixed, public)
        }
    }
}

impl<AB: AirBuilder<F = Goldilocks>> Air<AB> for System {
    fn eval(&self, builder: &mut AB) {
        let main = builder.main();
        let cur = main.current_slice().to_vec();
        let nxt = main.next_slice().to_vec();
        let fixed = if self.fixed.is_some() {
            builder.preprocessed().current_slice().to_vec()
        } else {
            Vec::new()
        };
        let public = builder.public_values().to_vec();
        for c in &self.rules.constraints {
            let e = polynomial::<AB>(&c.expr, &cur, &nxt, &fixed, &public);
            match c.rows {
                Rows::All => builder.assert_zero(e),
                Rows::First => builder.when_first_row().assert_zero(e),
                Rows::Last => builder.when_last_row().assert_zero(e),
                Rows::Transition => builder.when_transition().assert_zero(e),
            }
        }
    }
}

/// A trace of the library, as the proof system sees it.
fn dense(m: &RowMajorMatrix) -> Dense<Goldilocks> {
    Dense::new(m.values.iter().map(|&v| Goldilocks::new(v)).collect(), m.width)
}

/// Whether a trace meets every constraint on every row.
fn accepts(system: &System, trace: &RowMajorMatrix) -> bool {
    check_all_constraints(system, &dense(trace), &[], Some(1)).is_ok()
}

/// The field element of an integer.
fn val(x: i64) -> u64 {
    <Goldilocks as QuotientMap<i64>>::from_int(x).as_canonical_u64()
}

/// The chip's constraint system over the composite columns.
fn system() -> System {
    let mut rules = ConstraintBuilder::new();
    StarkRowChip::new().eval(&mut rules);
    System { width: TOTAL_TRACE_WIDTH, public: 0, rules, fixed: None }
}

fn build_valid_trace_with_rows(rows: usize) -> RowMajorMatrix {
    let chip = StarkRowChip::new();
    let mut values = vec![0u64; rows * TOTAL_TRACE_WIDTH];
    for r in 0..rows {
        chip.fill_row(r, &mut values[r * TOTAL_TRACE_WIDTH..(r + 1) * TOTAL_TRACE_WIDTH]);
    }
    RowMajorMatrix { values, width: TOTAL_TRACE_WIDTH }
}

fn build_valid_trace() -> RowMajorMatrix {
    build_valid_trace_with_rows(16)
}

#[test]
fn chip_constructs() {
    let _chip = StarkRowChip::new();
}

#[test]
fn fill_row_writes_row_index() {
    let mut row = vec![0u64; TOTAL_TRACE_WIDTH];
    StarkRowChip::new().fill_row(42, &mut row);
    assert_eq!(row[STARK_ROW_IDX], 42);
}

#[test]
fn prove_and_verify_valid_monotonic_trace() {
    assert!(accepts(&system(), &build_valid_trace()), "valid monotonic trace must verify");
}

#[test]
fn verify_rejects_nonzero_first_row() {
    let mut trace = build_valid_trace();
    trace.values[STARK_ROW_IDX] = val(99);
    assert!(!accepts(&system(), &trace), "non-zero first row must reject");
}

#[test]
fn verify_rejects_broken_increment() {
    let mut trace = build_valid_trace();
    trace.values[5 * TOTAL_TRACE_WIDTH + STARK_ROW_IDX] = val(42);
    assert!(!accepts(&system(), &trace), "broken increment must reject");
}

#[test]
fn verify_rejects_skipped_index() {
    let mut trace = build_valid_trace();
    trace.values[7 * TOTAL_TRACE_WIDTH + STARK_ROW_IDX] = val(8);
    assert!(!accepts(&system(), &trace), "skipped index must reject");
}

#[test]
fn valid_trace_has_correct_row_indices() {
    let trace = build_valid_trace();
    let h = trace.values.len() / TOTAL_TRACE_WIDTH;
    for r in 0..h {
        assert_eq!(trace.values[r * TOTAL_TRACE_WIDTH + STARK_ROW_IDX], r as u64, "row {r}");
    }
}

#[test]
fn verify_rejects_late_tamper() {
    let mut trace = build_valid_trace();
    let h = trace.values.len() / TOTAL_TRACE_WIDTH;
    trace.values[(h - 2) * TOTAL_TRACE_WIDTH + STARK_ROW_IDX] = val(0xDEAD_BEEF);
    assert!(!accepts(&system(), &trace), "late-row tamper must reject");
}

#[test]
fn prove_and_verify_min_stark_len_trace() {
    let trace = build_valid_trace_with_rows(MIN_STARK_LEN);
    assert!(accepts(&system(), &trace), "MIN_STARK_LEN monotonic trace must verify");
}
