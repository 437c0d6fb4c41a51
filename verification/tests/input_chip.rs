use ai_pow_zk::chips::input::{InputChip, MATRIX_PACKING_BASE, NOISE_PACKING_BASE};
use ai_pow_zk::composite_layout::{
    MAT_UNPACK_START, NOISED_PACKED_START, NOISE_PACKED_PREP, TOTAL_TRACE_WIDTH,
};
use ai_pow_zk::air::{ConstraintBuilder, Expr, Rows};
use ai_pow_zk::matrix::RowMajorMatrix;
use p3_air::{check_all_constraints, Air, AirBuilder, BaseAir, WindowAccess};
use p3_goldilocks::Goldilocks;
use p3_matrix::dense::RowMajorMatrix as Dense;
use p3_field::integers::QuotientMap;
use p3_field::PrimeField64;

/// A constraint system of the library, as the proof system sees it.
struct System {
    width: usize,
    public: usize,
    rules: ConstraintBuilder,
    fixed: Option<Dense<Goldilocks>>,
}

impl BaseAir<Goldilocks> for System {
    fn width(&self) -> usize {
        self.width
    }
    fn num_public_values(&self) -> usize {
        self.public
    }
    fn preprocessed_width(&self) -> usize {
        self.fixed.as_ref().map_or(0, |m| m.width)
    }
    fn preprocessed_trace(&self) -> Option<Dense<Goldilocks>> {
        self.fixed.clone()
    }
}

/// A polynomial of the library, in the proof system's terms.
fn polynomial<AB: AirBuilder<F = Goldilocks>>(
    e: &Expr,
    cur: &[AB::Var],
    nxt: &[AB::Var],
    fixed: &[AB::Var],
    public: &[AB::PublicVar],
) -> AB::Expr {
    match e {
        Expr::Const(c) => AB::Expr::from(Goldilocks::new(*c)),
        Expr::Cur(i) => cur[*i].into(),
        Expr::Next(i) => nxt[*i].into(),
        Expr::Fixed(i) => fixed[*i].into(),
        Expr::Public(i) => public[*i].into(),
        Expr::Add(a, b) => {
            polynomial::<AB>(a, cur, nxt, fixed, public)
                + polynomial::<AB>(b, cur, nxt, fixed, public)
        }
        Expr::Sub(a, b) => {
            polynomial::<AB>(a, cur, nxt, fixed, public)
                - polynomial::<AB>(b, cur, nxt, fixed, public)
        }
        Expr::Mul(a, b) => {
            polynomial::<AB>(a, cur, nxt, fixed, public)
                * polynomial::<AB>(b, cur, nxt, fixed, public)
        }
    }
}

impl<AB: AirBuilder<F = Goldilocks>> Air<AB> for System {
    fn eval(&self, builder: &mut AB) {
        let main = builder.main();
        let cur = main.current_slice().to_vec();
        let nxt = main.next_slice().to_vec();
        let fixed = if self.fixed.is_some() {
            builder.preprocessed().current_slice().to_vec()
        } else {
            Vec::new()
        };
        let public = builder.public_values().to_vec();
        for c in &self.rules.constraints {
            let e = polynomial::<AB>(&c.expr, &cur, &nxt, &fixed, &public);
            match c.rows {
                Rows::All => builder.assert_zero(e),
                Rows::First => builder.when_first_row().assert_zero(e),
                Rows::Last => builder.when_last_row().assert_zero(e),
                Rows::Transition => builder.when_transition().assert_zero(e),
            }
        }
    }
}

/// A trace of the library, as the proof system sees it.
fn dense(m: &RowMajorMatrix) -> Dense<Goldilocks> {
    Dense::new(m.values.iter().map(|&v| Goldilocks::new(v)).collect(), m.width)
}

/// Whether a trace meets every constraint on every row.
fn accepts(system: &System, trace: &RowMajorMatrix) -> bool {
    check_all_constraints(system, &dense(trace), &[], Some(1)).is_ok()
}

/// The field element of an integer.
fn val(x: i64) -> u64 {
    <Goldilocks as QuotientMap<i64>>::from_int(x).as_canonical_u64()
}

/// The chip's constraint system over the composite columns.
fn system() -> System {
    let mut rules = ConstraintBuilder::new();
    InputChip::new().eval(&mut rules);
    System { width: TOTAL_TRACE_WIDTH, public: 0, rules, fixed: None }
}

fn build_valid_trace_rows(rows: usize, mat: &[i8; 8], noise: &[i8; 8]) -> RowMajorMatrix {
    let chip = InputChip::new();
    let mut values = vec![0u64; rows * TOTAL_TRACE_WIDTH];
    for r in 0..rows {
        chip.fill_row(
            mat,
            noise,
            &mut values[r * TOTAL_TRACE_WIDTH..(r + 1) * TOTAL_TRACE_WIDTH],
        );
    }
    RowMajorMatrix { values, width: TOTAL_TRACE_WIDTH }
}

#[test]
fn noise_packing_base_is_129() {
    assert_eq!(NOISE_PACKING_BASE, 129);
}

#[test]
fn matrix_packing_base_is_256() {
    assert_eq!(MATRIX_PACKING_BASE, 256);
}

#[test]
fn fill_row_packs_correctly_simple() {
    let chip = InputChip::new();
    let mat: [i8; 8] = [1, 2, 3, 4, 5, 6, 7, 8];
    let noise: [i8; 8] = [0; 8];
    let mut row = vec![0u64; TOTAL_TRACE_WIDTH];
    chip.fill_row(&mat, &noise, &mut row);
    assert_eq!(row[NOISE_PACKED_PREP], 0);
    assert_eq!(row[NOISED_PACKED_START], 67305985);
}

#[test]
fn prove_and_verify_valid_input_trace() {
    let mat: [i8; 8] = [1, -1, 2, -2, 3, -3, 4, -4];
    let noise: [i8; 8] = [0, 1, 0, -1, 0, 1, 0, -1];
    let trace = build_valid_trace_rows(16, &mat, &noise);
    assert!(accepts(&system(), &trace), "valid input-chip trace must verify");
}

#[test]
fn rejects_wrong_noised_packed() {
    let mut trace = build_valid_trace_rows(16, &[1, 2, 3, 4, 5, 6, 7, 8], &[0; 8]);
    trace.values[5 * TOTAL_TRACE_WIDTH + NOISED_PACKED_START] = val(0);
    assert!(!accepts(&system(), &trace));
}

#[test]
fn rejects_wrong_noise_packed_prep() {
    let mut trace = build_valid_trace_rows(16, &[0; 8], &[1, 2, 3, 4, 5, 6, 7, 8]);
    trace.values[3 * TOTAL_TRACE_WIDTH + NOISE_PACKED_PREP] = val(0);
    assert!(!accepts(&system(), &trace));
}

#[test]
fn rejects_tampered_mat_byte() {
    let mut trace = build_valid_trace_rows(16, &[1, 2, 3, 4, 5, 6, 7, 8], &[0; 8]);
    trace.values[MAT_UNPACK_START + 2] = val(10);
    assert!(!accepts(&system(), &trace));
}

#[test]
fn cannot_diverge_mat_from_noised_packed() {
    let mut trace = build_valid_trace_rows(16, &[10, 20, 30, 40, 50, 60, 70, 80], &[-5; 8]);
    trace.values[7 * TOTAL_TRACE_WIDTH + MAT_UNPACK_START + 5] = val(61);
    assert!(!accepts(&system(), &trace));
}

#[test]
fn handles_boundary_noise_values() {
    let noise: [i8; 8] = [-64, -63, -1, 0, 1, 62, 63, 64];
    let trace = build_valid_trace_rows(16, &[0; 8], &noise);
    assert!(accepts(&system(), &trace), "boundary-noise trace must verify");
}

#[test]
fn negative_words_are_packed_as_field_elements() {
    let mut row = vec![0u64; TOTAL_TRACE_WIDTH];
    InputChip::new().fill_row(&[-1; 8], &[-64; 8], &mut row);
    let noise: i64 = -64 * (0..8).map(|i| 129i64.pow(i)).sum::<i64>();
    assert_eq!(row[NOISE_PACKED_PREP], val(noise));
    assert_eq!(row[NOISED_PACKED_START + 1], val(-65 * (1 + 256 + 65536 + 16777216)));
    assert_eq!(row[NOISED_PACKED_START + 2], 0);
    assert_eq!(row[MAT_UNPACK_START + 7], val(-1));
}
