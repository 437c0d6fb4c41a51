use ai_pow_zk::chips::jackpot::chip::{build_trace, cols, fill_row, JackpotChip, Step};
use ai_pow_zk::chips::jackpot::compute::apply_jackpot_step;
use ai_pow_zk::composite_layout::JACKPOT_SIZE;
use ai_pow_zk::air::{ConstraintBuilder, Expr, Rows};
use ai_pow_zk::matrix::RowMajorMatrix;
use p3_air::{check_all_constraints, Air, AirBuilder, BaseAir, WindowAccess};
use p3_goldilocks::Goldilocks;
use p3_matrix::dense::RowMajorMatrix as Dense;
use p3_field::integers::QuotientMap;
use p3_field::PrimeField64;

/// A constraint system of the library, as the proof system sees it.
struct System {
    width: usize,
    public: usize,
    rules: ConstraintBuilder,
    fixed: Option<Dense<Goldilocks>>,
}

impl BaseAir<Goldilocks> for System {
    fn width(&self) -> usize {
        self.width
    }
    fn num_public_values(&self) -> usize {
        self.public
    }
    fn preprocessed_width(&self) -> usize {
        self.fixed.as_ref().map_or(0, |m| m.width)
    }
    fn preprocessed_trace(&self) -> Option<Dense<Goldilocks>> {
        self.fixed.clone()
    }
}

/// A polynomial of the library, in the proof system's terms.
fn polynomial<AB: AirBuilder<F = Goldilocks>>(
    e: &Expr,
    cur: &[AB::Var],
    nxt: &[AB::Var],
    fixed: &[AB::Var],
    public: &[AB::PublicVar],
) -> AB::Expr {
    match e {
        Expr::Const(c) => AB::Expr::from(Goldilocks::new(*c)),
        Expr::Cur(i) => cur[*i].into(),
        Expr::Next(i) => nxt[*i].into(),
        Expr::Fixed(i) => fixed[*i].into(),
        Expr::Public(i) => public[*i].into(),
        Expr::Add(a, b) => {
            polynomial::<AB>(a, cur, nxt, fixed, public)
                + polynomial::<AB>(b, cur, nxt, fixed, public)
        }
        Expr::Sub(a, b) => {
            polynomial::<AB>(a, cur, nxt, fixed, public)
                - polynomial::<AB>(b, cur, nxt, fixed, public)
        }
        Expr::Mul(a, b) => {
            polynomial::<AB>(a, cur, nxt, fixed, public)
                * polynomial::<AB>(b, cur, nxt, fixed, public)
        }
    }
}

impl<AB: AirBuilder<F = Goldilocks>> Air<AB> for System {
    fn eval(&self, builder: &mut AB) {
        let main = builder.main();
        let cur = main.current_slice().to_vec();
        let nxt = main.next_slice().to_vec();
        let fixed = if self.fixed.is_some() {
            builder.preprocessed().current_slice().to_vec()
        } else {
            Vec::new()
        };
        let public = builder.public_values().to_vec();
        for c in &self.rules.constraints {
            let e = polynomial::<AB>(&c.expr, &cur, &nxt, &fixed, &public);
            match c.rows {
                Rows::All => builder.assert_zero(e),
                Rows::First => builder.when_first_row().assert_zero(e),
                Rows::Last => builder.when_last_row().assert_zero(e),
                Rows::Transition => builder.when_transition().assert_zero(e),
            }
        }
    }
}

/// A trace of the library, as the proof system sees it.
fn dense(m: &RowMajorMatrix) -> Dense<Goldilocks> {
    Dense::new(m.values.iter().map(|&v| Goldilocks::new(v)).collect(), m.width)
}

/// Whether a trace meets every constraint on every row.
fn accepts(system: &System, trace: &RowMajorMatrix) -> bool {
    check_all_constraints(system, &dense(trace), &[], Some(1)).is_ok()
}

/// The field element of an integer.
fn val(x: i64) -> u64 {
    <Goldilocks as QuotientMap<i64>>::from_int(x).as_canonical_u64()
}

/// The chip's constraint system.
fn system() -> System {
    let mut rules = ConstraintBuilder::new();
    JackpotChip.eval(&mut rules);
    System { width: JackpotChip.width(), public: 0, rules, fixed: None }
}

fn initial_state() -> [u32; JACKPOT_SIZE] {
    core::array::from_fn(|i| (i as u32 + 1) * 0x01010101)
}

fn step(selected_slot: usize, x: u32, is_active: bool) -> Step {
    Step { selected_slot, x, is_active }
}

fn build_4step_trace() -> RowMajorMatrix {
    let steps = vec![
        step(0, 0xCAFE, true),
        step(3, 0xBABE, true),
        step(15, 0xDEADBEEF, true),
        step(7, 0xF00D, true),
    ];
    build_trace(&initial_state(), &steps)
}

#[test]
fn verify_rejects_tampered_jackpot_msg() {
    let mut trace = build_4step_trace();
    trace.values[cols::ROW_W + cols::JACKPOT_MSG] = val(0xDEADBEEF);
    assert!(!accepts(&system(), &trace), "tampered JACKPOT_MSG[0] must reject");
}

#[test]
fn verify_rejects_wrong_v_bits() {
    let mut trace = build_4step_trace();
    let bit = trace.values[cols::V_BITS + 5];
    trace.values[cols::V_BITS + 5] = 1 - bit;
    assert!(!accepts(&system(), &trace), "wrong V_BITS must reject");
}

#[test]
fn verify_rejects_non_boolean_slot_sel() {
    let mut trace = build_4step_trace();
    trace.values[cols::SLOT_SEL] = val(2);
    assert!(!accepts(&system(), &trace), "non-boolean SLOT_SEL must reject");
}

#[test]
fn verify_rejects_multiple_slots_selected() {
    let mut trace = build_4step_trace();
    trace.values[cols::SLOT_SEL + 5] = val(1);
    assert!(!accepts(&system(), &trace), "two simultaneously-selected slots must reject");
}

#[test]
fn verify_rejects_active_without_selection() {
    let mut trace = build_4step_trace();
    trace.values[cols::SLOT_SEL] = val(0);
    assert!(!accepts(&system(), &trace), "active row without slot selection must reject");
}

#[test]
fn verify_rejects_tampered_x_bits() {
    let mut trace = build_4step_trace();
    let bit = trace.values[cols::X_BITS];
    trace.values[cols::X_BITS] = 1 - bit;
    assert!(!accepts(&system(), &trace), "tampered X_BITS must reject");
}

#[test]
fn verify_rejects_unrotated_value() {
    let initial = initial_state();
    let steps =
        vec![step(0, 0xCAFE, true), step(0, 0, false), step(0, 0, false), step(0, 0, false)];
    let mut trace = build_trace(&initial, &steps);
    trace.values[cols::ROW_W + cols::JACKPOT_MSG] = val(initial[0] as i64);
    assert!(!accepts(&system(), &trace), "missing rotation must reject");
}

#[test]
fn prove_and_verify_full_slot_pass() {
    let mut steps = Vec::with_capacity(32);
    for i in 0..JACKPOT_SIZE {
        steps.push(step(i, (i as u32 + 1) * 0x12345, true));
        steps.push(step(0, 0, false));
    }
    let trace = build_trace(&initial_state(), &steps);
    assert!(accepts(&system(), &trace), "full-slot pass must verify");
}

/// Three active steps leave a zero row below the last one, which the update
/// does not allow.
#[test]
fn active_step_before_padding_is_refused() {
    let active = vec![step(0, 1, true), step(1, 2, true), step(2, 3, true)];
    assert!(!accepts(&system(), &build_trace(&initial_state(), &active)));
    let idle = vec![step(0, 1, true), step(1, 2, true), step(2, 3, false)];
    assert!(accepts(&system(), &build_trace(&initial_state(), &idle)));
}

#[test]
fn rows_carry_the_state_before_their_step() {
    let steps = vec![step(2, 0x55, true), step(9, 0xAA, true)];
    let trace = build_trace(&initial_state(), &steps);
    let next = apply_jackpot_step(&initial_state(), 2, 0x55, true);
    for i in 0..JACKPOT_SIZE {
        assert_eq!(trace.values[cols::JACKPOT_MSG + i], initial_state()[i] as u64);
        assert_eq!(trace.values[cols::ROW_W + cols::JACKPOT_MSG + i], next[i] as u64);
    }
    assert_eq!(next[2], 0x03030303u32.rotate_left(13) ^ 0x55);
}

#[test]
fn inactive_row_has_no_bits() {
    let mut row = vec![7u64; cols::ROW_W];
    fill_row(&mut row, &initial_state(), 99, 0xFFFF, false);
    assert!(row[cols::V_BITS..].iter().all(|&v| v == 0));
    assert_eq!(row[15], 0x10101010);
}
