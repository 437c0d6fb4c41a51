use ai_pow_zk::chips::jackpot::chip::{
    build_trace as jackpot_trace, cols as jackpot_cols, JackpotChip, Step as JackpotStep,
};
use ai_pow_zk::chips::matmul::chip::{
    build_trace as matmul_trace, cols as matmul_cols, MatmulCumsumChip, Step,
};
use ai_pow_zk::composite_layout::{JACKPOT_SIZE, TILE_D, TILE_H};
use ai_pow_zk::air::{ConstraintBuilder, Expr, Rows};
use ai_pow_zk::matrix::RowMajorMatrix;
use p3_air::{check_all_constraints, Air, AirBuilder, BaseAir, WindowAccess};
use p3_goldilocks::Goldilocks;
use p3_matrix::dense::RowMajorMatrix as Dense;

/// A constraint system of the library, as the proof system sees it.
struct System {
    width: usize,
    public: usize,
    rules: ConstraintBuilder,
    fixed: Option<Dense<Goldilocks>>,
}

impl BaseAir<Goldilocks> for System {
    fn width(&self) -> usize {
        self.width
    }
    fn num_public_values(&self) -> usize {
        self.public
    }
    fn preprocessed_width(&self) -> usize {
        self.fixed.as_ref().map_or(0, |m| m.width)
    }
    fn preprocessed_trace(&self) -> Option<Dense<Goldilocks>> {
        self.fixed.clone()
    }
}

/// A polynomial of the library, in the proof system's terms.
fn polynomial<AB: AirBuilder<F = Goldilocks>>(
    e: &Expr,
    cur: &[AB::Var],
    nxt: &[AB::Var],
    fixed: &[AB::Var],
    public: &[AB::PublicVar],
) -> AB::Expr {
    match e {
        Expr::Const(c) => AB::Expr::from(Goldilocks::new(*c)),
        Expr::Cur(i) => cur[*i].into(),
        Expr::Next(i) => nxt[*i].into(),
        Expr::Fixed(i) => fixed[*i].into(),
        Expr::Public(i) => public[*i].into(),
        Expr::Add(a, b) => {
            polynomial::<AB>(a, cur, nxt, fixed, public)
                + polynomial::<AB>(b, cur, nxt, fixed, public)
        }
        Expr::Sub(a, b) => {
            polynomial::<AB>(a, cur, nxt, fixed, public)
                - polynomial::<AB>(b, cur, nxt, fixed, public)
        }
        Expr::Mul(a, b) => {
            polynomial::<AB>(a, cur, nxt, fixed, public)
                * polynomial::<AB>(b, cur, nxt, fixed, public)
        }
    }
}

impl<AB: AirBuilder<F = Goldilocks>> Air<AB> for System {
    fn eval(&self, builder: &mut AB) {
        let main = builder.main();
        let cur = main.current_slice().to_vec();
        let nxt = main.next_slice().to_vec();
        let fixed = if self.fixed.is_some() {
            builder.preprocessed().current_slice().to_vec()
        } else {
            Vec::new()
        };
        let public = builder.public_values().to_vec();
        for c in &self.rules.constraints {
            let e = polynomial::<AB>(&c.expr, &cur, &nxt, &fixed, &public);
            match c.rows {
                Rows::All => builder.assert_zero(e),
                Rows::First => builder.when_first_row().assert_zero(e),
                Rows::Last => builder.when_last_row().assert_zero(e),
                Rows::Transition => builder.when_transition().assert_zero(e),
            }
        }
    }
}

/// A trace of the library, as the proof system sees it.
fn dense(m: &RowMajorMatrix) -> Dense<Goldilocks> {
    Dense::new(m.values.iter().map(|&v| Goldilocks::new(v)).collect(), m.width)
}

/// Whether a trace meets every constraint on every row.
fn accepts(system: &System, trace: &RowMajorMatrix) -> bool {
    check_all_constraints(system, &dense(trace), &[], Some(1)).is_ok()
}

/// The constraint system of the jackpot chip.
fn jackpot() -> System {
    let mut rules = ConstraintBuilder::new();
    JackpotChip.eval(&mut rules);
    System { width: JackpotChip.width(), public: 0, rules, fixed: None }
}

/// The constraint system of the matrix chip.
fn matmul() -> System {
    let mut rules = ConstraintBuilder::new();
    MatmulCumsumChip.eval(&mut rules);
    System { width: MatmulCumsumChip.width(), public: 0, rules, fixed: None }
}

fn initial_state() -> [u32; JACKPOT_SIZE] {
    core::array::from_fn(|i| (i as u32 + 1) * 0x01010101)
}

fn step(selected_slot: usize, x: u32, is_active: bool) -> JackpotStep {
    JackpotStep { selected_slot, x, is_active }
}

fn make_a_pattern_1() -> [[i8; TILE_D]; TILE_H] {
    let mut a = [[0i8; TILE_D]; TILE_H];
    for d in 0..TILE_D {
        a[0][d] = (d as i8 + 1) % 5;
        a[1][d] = (d as i8 * 3) % 7 - 3;
    }
    a
}

fn make_b_pattern_1() -> [[i8; TILE_D]; TILE_H] {
    let mut b = [[0i8; TILE_D]; TILE_H];
    for d in 0..TILE_D {
        b[0][d] = ((d as i8 + 2) % 6) - 3;
        b[1][d] = ((d as i8 + 3) % 11) - 5;
    }
    b
}

fn pattern_step(is_reset: bool, is_update: bool) -> Step {
    Step { a: make_a_pattern_1(), b: make_b_pattern_1(), is_reset, is_update }
}

#[test]
fn chip_prove_and_verify_4_step_chain() {
    let jackpot_steps = vec![
        step(0, 0xCAFE, true),
        step(3, 0xBABE, true),
        step(15, 0xDEADBEEF, true),
        step(7, 0xF00D, true),
    ];
    assert!(
        accepts(&jackpot(), &jackpot_trace(&initial_state(), &jackpot_steps)),
        "4-step jackpot chain must verify"
    );
    let matmul_steps = [
        pattern_step(true, false),
        pattern_step(false, true),
        pattern_step(false, true),
        pattern_step(false, true),
    ];
    assert!(accepts(&matmul(), &matmul_trace(&matmul_steps)), "4-step cumsum chain must verify");
}

#[test]
fn chip_prove_and_verify_passthrough_row() {
    let jackpot_steps =
        vec![step(0, 0xCAFE, true), step(0, 0, false), step(5, 0xBABE, true), step(0, 0, false)];
    assert!(
        accepts(&jackpot(), &jackpot_trace(&initial_state(), &jackpot_steps)),
        "jackpot passthrough trace must verify"
    );
    let matmul_steps = [
        pattern_step(true, false),
        pattern_step(false, false),
        pattern_step(false, true),
        pattern_step(false, true),
    ];
    assert!(accepts(&matmul(), &matmul_trace(&matmul_steps)), "pass-through cumsum must verify");
}

#[test]
fn chip_chip_width_pinned() {
    assert_eq!(jackpot_cols::ROW_W, 97);
    assert_eq!(jackpot_cols::JACKPOT_MSG_LEN, 16);
    assert_eq!(jackpot_cols::V_BITS_LEN, 32);
    assert_eq!(jackpot_cols::X_BITS_LEN, 32);
    assert_eq!(jackpot_cols::SLOT_SEL_LEN, 16);
}

#[test]
fn chip_width_pinned() {
    assert_eq!(matmul_cols::ROW_W, 71);
    assert_eq!(matmul_cols::A_UNPACK_LEN, 32);
    assert_eq!(matmul_cols::B_UNPACK_LEN, 32);
    assert_eq!(matmul_cols::CUMSUM_LEN, 4);
}
