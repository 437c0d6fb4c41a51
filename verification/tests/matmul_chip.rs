use ai_pow_zk::chips::matmul::chip::{build_trace, cols, fill_row, MatmulCumsumChip, Step};
use ai_pow_zk::chips::matmul::compute::tile_dot_block;
use ai_pow_zk::composite_layout::{TILE_D, TILE_H};
use ai_pow_zk::air::{ConstraintBuilder, Expr, Rows};
use ai_pow_zk::matrix::RowMajorMatrix;
use p3_air::{check_all_constraints, Air, AirBuilder, BaseAir, WindowAccess};
use p3_goldilocks::Goldilocks;
use p3_matrix::dense::RowMajorMatrix as Dense;
use p3_field::integers::QuotientMap;
use p3_field::PrimeField64;

/// A constraint system of the library, as the proof system sees it.
struct System {
    width: usize,
    public: usize,
    rules: ConstraintBuilder,
    fixed: Option<Dense<Goldilocks>>,
}

impl BaseAir<Goldilocks> for System {
    fn width(&self) -> usize {
        self.width
    }
    fn num_public_values(&self) -> usize {
        self.public
    }
    fn preprocessed_width(&self) -> usize {
        self.fixed.as_ref().map_or(0, |m| m.width)
    }
    fn preprocessed_trace(&self) -> Option<Dense<Goldilocks>> {
        self.fixed.clone()
    }
}

/// A polynomial of the library, in the proof system's terms.
fn polynomial<AB: AirBuilder<F = Goldilocks>>(
    e: &Expr,
    cur: &[AB::Var],
    nxt: &[AB::Var],
    fixed: &[AB::Var],
    public: &[AB::PublicVar],
) -> AB::Expr {
    match e {
        Expr::Const(c) => AB::Expr::from(Goldilocks::new(*c)),
        Expr::Cur(i) => cur[*i].into(),
        Expr::Next(i) => nxt[*i].into(),
        Expr::Fixed(i) => fixed[*i].into(),
        Expr::Public(i) => public[*i].into(),
        Expr::Add(a, b) => {
            polynomial::<AB>(a, cur, nxt, fixed, public)
                + polynomial::<AB>(b, cur, nxt, fixed, public)
        }
        Expr::Sub(a, b) => {
            polynomial::<AB>(a, cur, nxt, fixed, public)
                - polynomial::<AB>(b, cur, nxt, fixed, public)
        }
        Expr::Mul(a, b) => {
            polynomial::<AB>(a, cur, nxt, fixed, public)
                * polynomial::<AB>(b, cur, nxt, fixed, public)
        }
    }
}

impl<AB: AirBuilder<F = Goldilocks>> Air<AB> for System {
    fn eval(&self, builder: &mut AB) {
        let main = builder.main();
        let cur = main.current_slice().to_vec();
        let nxt = main.next_slice().to_vec();
        let fixed = if self.fixed.is_some() {
            builder.preprocessed().current_slice().to_vec()
        } else {
            Vec::new()
        };
        let public = builder.public_values().to_vec();
        for c in &self.rules.constraints {
            let e = polynomial::<AB>(&c.expr, &cur, &nxt, &fixed, &public);
            match c.rows {
                Rows::All => builder.assert_zero(e),
                Rows::First => builder.when_first_row().assert_zero(e),
                Rows::Last => builder.when_last_row().assert_zero(e),
                Rows::Transition => builder.when_transition().assert_zero(e),
            }
        }
    }
}

/// A trace of the library, as the proof system sees it.
fn dense(m: &RowMajorMatrix) -> Dense<Goldilocks> {
    Dense::new(m.values.iter().map(|&v| Goldilocks::new(v)).collect(), m.width)
}

/// Whether a trace meets every constraint on every row.
fn accepts(system: &System, trace: &RowMajorMatrix) -> bool {
    check_all_constraints(system, &dense(trace), &[], Some(1)).is_ok()
}

/// The field element of an integer.
fn val(x: i64) -> u64 {
    <Goldilocks as QuotientMap<i64>>::from_int(x).as_canonical_u64()
}

/// The chip's constraint system.
fn system() -> System {
    let mut rules = ConstraintBuilder::new();
    MatmulCumsumChip.eval(&mut rules);
    System { width: MatmulCumsumChip.width(), public: 0, rules, fixed: None }
}

fn make_a_pattern_1() -> [[i8; TILE_D]; TILE_H] {
    let mut a = [[0i8; TILE_D]; TILE_H];
    for d in 0..TILE_D {
        a[0][d] = (d as i8 + 1) % 5;
        a[1][d] = (d as i8 * 3) % 7 - 3;
    }
    a
}

fn make_b_pattern_1() -> [[i8; TILE_D]; TILE_H] {
    let mut b = [[0i8; TILE_D]; TILE_H];
    for d in 0..TILE_D {
        b[0][d] = ((d as i8 + 2) % 6) - 3;
        b[1][d] = ((d as i8 + 3) % 11) - 5;
    }
    b
}

fn pattern_step(is_reset: bool, is_update: bool) -> Step {
    Step { a: make_a_pattern_1(), b: make_b_pattern_1(), is_reset, is_update }
}

fn build_4step_trace() -> RowMajorMatrix {
    build_trace(&[
        pattern_step(true, false),
        pattern_step(false, true),
        pattern_step(false, true),
        pattern_step(false, true),
    ])
}

#[test]
fn verify_rejects_tampered_cumsum() {
    let mut trace = build_4step_trace();
    trace.values[cols::ROW_W + cols::CUMSUM] = val(99_999);
    assert!(!accepts(&system(), &trace), "tampered cumsum must reject");
}

#[test]
fn verify_rejects_tampered_a_cell() {
    let mut trace = build_4step_trace();
    trace.values[cols::ROW_W + cols::A_UNPACK] = val(42);
    assert!(!accepts(&system(), &trace), "tampered A_UNPACK must reject");
}

#[test]
fn verify_rejects_tampered_b_cell() {
    let mut trace = build_4step_trace();
    trace.values[cols::ROW_W + cols::B_UNPACK + 5] = val(-100);
    assert!(!accepts(&system(), &trace), "tampered B_UNPACK must reject");
}

#[test]
fn verify_rejects_non_boolean_is_reset() {
    let mut trace = build_4step_trace();
    trace.values[cols::IS_RESET_CUMSUM] = val(2);
    assert!(!accepts(&system(), &trace), "non-boolean is_reset must reject");
}

#[test]
fn verify_rejects_non_boolean_is_update() {
    let mut trace = build_4step_trace();
    trace.values[cols::ROW_W + cols::IS_UPDATE_CUMSUM] = val(2);
    assert!(!accepts(&system(), &trace), "non-boolean is_update must reject");
}

#[test]
fn prove_and_verify_extreme_values() {
    let a_pos = [[127i8; TILE_D]; TILE_H];
    let b_pos = [[127i8; TILE_D]; TILE_H];
    let a_neg = [[-128i8; TILE_D]; TILE_H];
    let b_neg = [[127i8; TILE_D]; TILE_H];
    let steps = vec![
        Step { a: a_pos, b: b_pos, is_reset: true, is_update: false },
        Step { a: a_neg, b: b_neg, is_reset: false, is_update: true },
        Step { a: a_pos, b: b_pos, is_reset: false, is_update: true },
        Step { a: a_pos, b: b_pos, is_reset: false, is_update: true },
    ];
    let trace = build_trace(&steps);
    assert!(accepts(&system(), &trace), "extreme i8 values must verify");
    assert_eq!(trace.values[2 * cols::ROW_W + cols::CUMSUM], val(16 * 127 * (127 - 128)));
}

#[test]
fn build_trace_pads_to_power_of_two() {
    let trace = build_trace(&[pattern_step(true, false)]);
    assert_eq!(trace.values.len(), 4 * cols::ROW_W);
}

/// A reset and an update on one row: the plain words take the inner product,
/// the constraint asks for twice of it.
#[test]
fn both_selectors_are_refused() {
    let steps = [
        pattern_step(true, true),
        pattern_step(false, false),
        pattern_step(false, false),
        pattern_step(false, false),
    ];
    let dot = tile_dot_block(&make_a_pattern_1(), &make_b_pattern_1());
    assert_ne!(dot, [0; 4]);
    let trace = build_trace(&steps);
    assert_eq!(trace.values[cols::ROW_W + cols::CUMSUM], val(dot[0] as i64));
    assert!(!accepts(&system(), &trace));
}

/// Padding carries a zero accumulator.
#[test]
fn padding_after_a_nonzero_accumulator_is_refused() {
    assert!(!accepts(&system(), &build_trace(&[pattern_step(true, false)])));
    let zero = Step {
        a: [[0; TILE_D]; TILE_H],
        b: make_b_pattern_1(),
        is_reset: true,
        is_update: false,
    };
    assert!(accepts(&system(), &build_trace(&[pattern_step(true, false), zero])));
}

#[test]
fn fill_row_writes_signed_cells() {
    let mut row = vec![9u64; cols::ROW_W];
    let mut a = make_a_pattern_1();
    a[1][15] = -128;
    fill_row(&mut row, &a, &make_b_pattern_1(), &[1, -1, i32::MIN, 7], true, false);
    assert_eq!(row[cols::A_UNPACK + 31], val(-128));
    assert_eq!(row[cols::CUMSUM + 1], val(-1));
    assert_eq!(row[cols::CUMSUM + 2], val(i32::MIN as i64));
    assert_eq!(row[cols::IS_RESET_CUMSUM], 1);
    assert_eq!(row[cols::IS_UPDATE_CUMSUM], 0);
    assert_eq!(row[cols::PADDING], 0);
}
