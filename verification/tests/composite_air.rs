use std::collections::HashMap;

use ai_pow_zk::bus::InteractionBuilder;
use ai_pow_zk::chips::matmul::compute::tile_dot_block;
use ai_pow_zk::chips::tile_accum::{build_trace as accum_trace, cols as ta, ref_accumulate};
use ai_pow_zk::chips::tile_reduce::{build_trace as reduce_trace, cols as tr};
use ai_pow_zk::composite_full_air::{
    extract_program, program_cols, program_degree_bits, CompositeFullAir, CompositeFullAirPinned,
    ProgramShapeError, PROGRAM_WIDTH,
};
use ai_pow_zk::composite_full_air_with_lookups::{
    CompositeFullAirWithLookups, CompositeFullAirWithLookupsPinned,
};
use ai_pow_zk::composite_layout::{
    A_ID, A_NOISED_START, A_NOISED_UNPACK_START, B_NOISED_UNPACK_START, CUMSUM_TILE_START,
    CV_IN_START, FOLD_IS_FOLD, FOLD_STATE_START, FOLD_XSTEP, IS_JOB_KEYED, IS_MSG_MAT,
    IS_UPDATE_CUMSUM, JACKPOT_MSG_START, MAT_FREQ, MAT_ID, MAT_UNPACK_START, NOISED_PACKED_START,
    RB_CONTROL_PREP, STARK_ROW_IDX, TA_DOT_START, TA_IS_ACTIVE, TILE_D, TILE_H,
    TOTAL_TRACE_WIDTH, TR_IN_START, TR_IS_ACTIVE, UINT8_DATA_START, URANGE8_FREQ,
};
use ai_pow_zk::composite_public::{CompositePublicInputs, PI_JACKPOT_OFFSET, PI_JOB_KEY_OFFSET};
use ai_pow_zk::air::{ConstraintBuilder, Expr, Rows};
use ai_pow_zk::matrix::RowMajorMatrix;
use p3_air::{check_all_constraints, Air, AirBuilder, BaseAir, WindowAccess};
use p3_goldilocks::Goldilocks;
use p3_matrix::dense::RowMajorMatrix as Dense;
use p3_field::integers::QuotientMap;
use p3_field::PrimeField64;

/// A constraint system of the library, as the proof system sees it.
struct System {
    width: usize,
    public: usize,
    rules: ConstraintBuilder,
    fixed: Option<Dense<Goldilocks>>,
}

impl BaseAir<Goldilocks> for System {
    fn width(&self) -> usize {
        self.width
    }
    fn num_public_values(&self) -> usize {
        self.public
    }
    fn preprocessed_width(&self) -> usize {
        self.fixed.as_ref().map_or(0, |m| m.width)
    }
    fn preprocessed_trace(&self) -> Option<Dense<Goldilocks>> {
        self.fixed.clone()
    }
}

/// A polynomial of the library, in the proof system's terms.
fn polynomial<AB: AirBuilder<F = Goldilocks>>(
    e: &Expr,
    cur: &[AB::Var],
    nxt: &[AB::Var],
    fixed: &[AB::Var],
    public: &[AB::PublicVar],
) -> AB::Expr {
    match e {
        Expr::Const(c) => AB::Expr::from(Goldilocks::new(*c)),
        Expr::Cur(i) => cur[*i].into(),
        Expr::Next(i) => nxt[*i].into(),
        Expr::Fixed(i) => fixed[*i].into(),
        Expr::Public(i) => public[*i].into(),
        Expr::Add(a, b) => {
            polynomial::<AB>(a, cur, nxt, fixed, public)
                + polynomial::<AB>(b, cur, nxt, fixed, public)
        }
        Expr::Sub(a, b) => {
            polynomial::<AB>(a, cur, nxt, fixed, public)
                - polynomial::<AB>(b, cur, nxt, fixed, public)
        }
        Expr::Mul(a, b) => {
            polynomial::<AB>(a, cur, nxt, fixed, public)
                * polynomial::<AB>(b, cur, nxt, fixed, public)
        }
    }
}

impl<AB: AirBuilder<F = Goldilocks>> Air<AB> for System {
    fn eval(&self, builder: &mut AB) {
        let main = builder.main();
        let cur = main.current_slice().to_vec();
        let nxt = main.next_slice().to_vec();
        let fixed = if self.fixed.is_some() {
            builder.preprocessed().current_slice().to_vec()
        } else {
            Vec::new()
        };
        let public = builder.public_values().to_vec();
        for c in &self.rules.constraints {
            let e = polynomial::<AB>(&c.expr, &cur, &nxt, &fixed, &public);
            match c.rows {
                Rows::All => builder.assert_zero(e),
                Rows::First => builder.when_first_row().assert_zero(e),
                Rows::Last => builder.when_last_row().assert_zero(e),
                Rows::Transition => builder.when_transition().assert_zero(e),
            }
        }
    }
}

/// A trace of the library, as the proof system sees it.
fn dense(m: &RowMajorMatrix) -> Dense<Goldilocks> {
    Dense::new(m.values.iter().map(|&v| Goldilocks::new(v)).collect(), m.width)
}

/// The field element of an integer.
fn val(x: i64) -> u64 {
    <Goldilocks as QuotientMap<i64>>::from_int(x).as_canonical_u64()
}

/// The composite system, with no further components.
fn system() -> System {
    let mut rules = ConstraintBuilder::new();
    CompositeFullAir.eval(&mut rules, ConstraintBuilder::new());
    System { width: TOTAL_TRACE_WIDTH, public: 60, rules, fixed: None }
}

/// The composite system with a fixed program.
fn pinned(program: RowMajorMatrix, sx_bound: bool) -> System {
    let fixed = Some(dense(&program));
    let mut rules = ConstraintBuilder::new();
    CompositeFullAirPinned::new_with(program, sx_bound).eval(&mut rules, ConstraintBuilder::new());
    System { width: TOTAL_TRACE_WIDTH, public: 60, rules, fixed }
}

/// Whether a trace meets every constraint under some public values.
fn accepts_with(system: &System, trace: &RowMajorMatrix, public: &[u64]) -> bool {
    let public: Vec<Goldilocks> = public.iter().map(|&v| Goldilocks::new(v)).collect();
    check_all_constraints(system, &dense(trace), &public, Some(1)).is_ok()
}

/// Whether a trace meets every constraint under the public values it gives.
fn accepts_own(system: &System, trace: &RowMajorMatrix) -> bool {
    let public = CompositePublicInputs::derive_from_matrix(trace).to_vec();
    accepts_with(system, trace, &public)
}

/// A trace of zeros with counted rows.
fn build_baseline_trace(rows: usize) -> RowMajorMatrix {
    let mut values = vec![0u64; rows * TOTAL_TRACE_WIDTH];
    for r in 0..rows {
        values[r * TOTAL_TRACE_WIDTH + STARK_ROW_IDX] = r as u64;
    }
    RowMajorMatrix { values, width: TOTAL_TRACE_WIDTH }
}

fn at(r: usize, c: usize) -> usize {
    r * TOTAL_TRACE_WIDTH + c
}

#[test]
fn pinned_try_new_rejects_malformed_program_shape() {
    let bad_width = RowMajorMatrix { values: vec![0; 8], width: 1 };
    assert!(matches!(
        CompositeFullAirPinned::try_new(bad_width),
        Err(ProgramShapeError::WidthMismatch { expected, actual: 1 }) if expected == program_cols().len()
    ));
    let bad_height = RowMajorMatrix { values: vec![0; PROGRAM_WIDTH * 3], width: PROGRAM_WIDTH };
    assert!(matches!(
        CompositeFullAirPinned::try_new(bad_height),
        Err(ProgramShapeError::HeightNotPowerOfTwo { height: 3 })
    ));
    let valid = RowMajorMatrix { values: vec![0; PROGRAM_WIDTH * 4], width: PROGRAM_WIDTH };
    assert!(CompositeFullAirPinned::try_new(valid).is_ok());
}

#[test]
fn program_height_gives_degree_bits() {
    for (h, bits) in [(1usize, 0usize), (2, 1), (64, 6)] {
        let p = RowMajorMatrix { values: vec![0; PROGRAM_WIDTH * h], width: PROGRAM_WIDTH };
        assert_eq!(program_degree_bits(&p), Ok(bits));
    }
    let empty = RowMajorMatrix { values: vec![], width: PROGRAM_WIDTH };
    assert_eq!(
        program_degree_bits(&empty),
        Err(ProgramShapeError::HeightNotPowerOfTwo { height: 0 })
    );
    let no_columns = RowMajorMatrix { values: vec![], width: 0 };
    assert_eq!(
        program_degree_bits(&no_columns),
        Err(ProgramShapeError::WidthMismatch { expected: 22, actual: 0 })
    );
}

#[test]
fn composite_full_air_width_matches_total_trace_width() {
    assert_eq!(CompositeFullAir.width(), TOTAL_TRACE_WIDTH);
    assert_eq!(CompositeFullAirWithLookups.width(), TOTAL_TRACE_WIDTH);
}

#[test]
fn composite_full_air_baseline_trace_verifies() {
    assert!(accepts_own(&system(), &build_baseline_trace(64)), "baseline trace must verify");
}

#[test]
fn composite_full_air_rejects_bad_row_idx() {
    let mut trace = build_baseline_trace(64);
    trace.values[at(3, STARK_ROW_IDX)] = val(999);
    assert!(!accepts_own(&system(), &trace), "tampered STARK_ROW_IDX must reject");
}

#[test]
fn composite_full_air_rejects_inconsistent_noised_packed() {
    let mut trace = build_baseline_trace(64);
    trace.values[at(0, NOISED_PACKED_START)] = val(42);
    assert!(!accepts_own(&system(), &trace), "inconsistent NOISED_PACKED must reject");
}

#[test]
fn composite_full_air_rejects_changed_cumsum_without_selectors() {
    let mut trace = build_baseline_trace(64);
    trace.values[at(1, CUMSUM_TILE_START)] = val(42);
    assert!(!accepts_own(&system(), &trace), "tampered CUMSUM_TILE in passthrough must reject");
}

#[test]
fn composite_full_air_accepts_changed_a_unpack_in_passthrough() {
    let mut trace = build_baseline_trace(64);
    trace.values[at(1, A_NOISED_UNPACK_START)] = val(100);
    assert!(accepts_own(&system(), &trace), "A_NOISED_UNPACK in passthrough must verify");
}

#[test]
fn unpacked_operands_are_packed_on_update_rows() {
    let mut trace = build_baseline_trace(16);
    trace.values[at(1, IS_UPDATE_CUMSUM)] = 1;
    trace.values[at(1, A_NOISED_UNPACK_START)] = val(-3);
    assert!(!accepts_own(&system(), &trace));
    trace.values[at(1, A_NOISED_START)] = val(-3);
    assert!(accepts_own(&system(), &trace));
}

#[test]
fn public_values_are_bound() {
    let trace = build_baseline_trace(16);
    let mut public = vec![0u64; 60];
    assert!(accepts_with(&system(), &trace, &public));
    public[PI_JACKPOT_OFFSET + 3] = 1;
    assert!(!accepts_with(&system(), &trace, &public));
}

#[test]
fn program_columns_are_pinned() {
    let trace = build_baseline_trace(16);
    let program = extract_program(&trace);
    assert_eq!(program.width, 22);
    assert_eq!(program.values.len(), 16 * 22);
    assert_eq!(program.values[5 * 22 + 19], 5);
    let sys = pinned(program, true);
    assert!(accepts_own(&sys, &trace));
    for (k, c) in program_cols().into_iter().enumerate() {
        let mut tampered = build_baseline_trace(16);
        tampered.values[at(7, c)] = val(1234);
        let program = extract_program(&tampered);
        assert_eq!(program.values[7 * 22 + k], 1234);
        assert!(!accepts_own(&sys, &tampered), "program column {k} must be pinned");
    }
}

#[test]
fn keyed_rows_use_the_job_key() {
    let mut trace = build_baseline_trace(16);
    let sys = pinned(extract_program(&trace), true);
    trace.values[at(2, IS_JOB_KEYED)] = 1;
    trace.values[at(2, CV_IN_START + 1)] = 77;
    let mut public = vec![0u64; 60];
    assert!(!accepts_with(&sys, &trace, &public));
    public[PI_JOB_KEY_OFFSET + 1] = 77;
    assert!(accepts_with(&sys, &trace, &public));
}

#[test]
fn final_jackpot_is_the_folded_state() {
    let mut trace = build_baseline_trace(16);
    let sys = pinned(extract_program(&trace), true);
    trace.values[at(15, JACKPOT_MSG_START)] = 9;
    assert!(!accepts_own(&sys, &trace));
    trace.values[at(15, FOLD_STATE_START)] = 9;
    assert!(accepts_own(&sys, &trace));
}

/// Two stripes of two sub-blocks, swept, reduced and folded.
fn build_chain_trace() -> RowMajorMatrix {
    let mut trace = build_baseline_trace(16);
    let tile = |salt: i8| -> [[i8; TILE_D]; TILE_H] {
        core::array::from_fn(|i| core::array::from_fn(|d| (d as i8) * salt - (i as i8) * 5))
    };
    let mut dots = Vec::new();
    for s in 0..2usize {
        let mut stripe = Vec::new();
        for sb in 0..2usize {
            let (a, b) = (tile(s as i8 + 1), tile(sb as i8 - 3));
            let r = s * 2 + sb;
            for i in 0..TILE_H {
                for d in 0..TILE_D {
                    trace.values[at(r, A_NOISED_UNPACK_START + i * TILE_D + d)] =
                        val(a[i][d] as i64);
                    trace.values[at(r, B_NOISED_UNPACK_START + i * TILE_D + d)] =
                        val(b[i][d] as i64);
                }
            }
            stripe.push(tile_dot_block(&a, &b));
        }
        dots.push(stripe);
    }
    let held = accum_trace(2, &dots);
    let (_, cells) = ref_accumulate(2, &dots);
    let (reduced, last) = reduce_trace(&cells);
    for r in 0..16usize {
        let source = r.min(held.values.len() / ta::ROW_W - 1);
        for c in 0..ta::ROW_W {
            trace.values[at(r, TA_IS_ACTIVE + c)] = held.values[source * ta::ROW_W + c];
        }
        let source = r.min(reduced.values.len() / tr::ROW_W - 1);
        for c in 0..tr::ROW_W {
            trace.values[at(r, TR_IS_ACTIVE + c)] = reduced.values[source * tr::ROW_W + c];
        }
    }
    for r in 0..4usize {
        let reset = if r < 2 { 2 } else { 0 };
        let stripe = if r % 2 == 0 { 512 } else { 0 };
        trace.values[at(r, RB_CONTROL_PREP)] = 1 + reset + (r as u64 % 2) * 4 + 256 + stripe;
    }
    for &r in &last {
        trace.values[at(r + 1, FOLD_IS_FOLD)] = 1;
        trace.values[at(r + 1, FOLD_XSTEP)] = reduced.values[r * tr::ROW_W + tr::NEW];
    }
    trace
}

#[test]
fn swept_tile_is_reduced_and_folded() {
    let trace = build_chain_trace();
    let sys = pinned(extract_program(&trace), false);
    assert!(accepts_own(&sys, &trace), "honest chain must verify");
    for (r, c, what) in [
        (2usize, FOLD_XSTEP, "folded scalar"),
        (1, TA_DOT_START, "inner product"),
        (3, TR_IN_START + 2, "reduced cell"),
        (0, A_NOISED_UNPACK_START + 1, "operand byte"),
        (2, RB_CONTROL_PREP, "schedule word"),
        (3, TA_IS_ACTIVE, "activity flag"),
    ] {
        let mut tampered = build_chain_trace();
        tampered.values[at(r, c)] = val(31);
        assert!(!accepts_own(&sys, &tampered), "tampered {what} must reject");
    }
}

/// A polynomial's value on one row.
fn on_row(e: &Expr, row: &[u64]) -> Goldilocks {
    match e {
        Expr::Const(c) => Goldilocks::new(*c),
        Expr::Cur(i) => Goldilocks::new(row[*i]),
        Expr::Add(a, b) => on_row(a, row) + on_row(b, row),
        Expr::Sub(a, b) => on_row(a, row) - on_row(b, row),
        Expr::Mul(a, b) => on_row(a, row) * on_row(b, row),
        _ => unreachable!("an interaction reads its own row"),
    }
}

#[test]
fn buses_carry_the_documented_entries() {
    let mut rules = ConstraintBuilder::new();
    let mut buses = InteractionBuilder::new();
    CompositeFullAirWithLookups.eval(&mut rules, &mut buses, ConstraintBuilder::new());
    let mut per_bus: HashMap<&str, usize> = HashMap::new();
    for i in &buses.interactions {
        *per_bus.entry(i.bus).or_default() += 1;
        assert!(i.weight <= 1);
    }
    let want = [
        ("urange8", 2usize),
        ("urange13", 7),
        ("irange7p1", 129),
        ("irange8", 65),
        ("i8u8", 65),
        ("noised_packed", 24),
        ("cv_routing", 2),
    ];
    for (bus, n) in want {
        assert_eq!(per_bus[bus], n, "{bus}");
    }
    let mut row = vec![0u64; TOTAL_TRACE_WIDTH];
    row[MAT_ID] = 100;
    row[MAT_FREQ] = 4;
    row[MAT_FREQ + 3] = 6;
    row[NOISED_PACKED_START + 7] = 55;
    row[URANGE8_FREQ] = 2;
    row[A_ID] = 8;
    row[MAT_UNPACK_START + 1] = 3;
    row[UINT8_DATA_START + 1] = 9;
    let values = |bus: &str, k: usize, row: &[u64]| -> (Vec<u64>, u64) {
        let i = buses.interactions.iter().filter(|i| i.bus == bus).nth(k).unwrap();
        let key = i.key.iter().map(|e| on_row(e, row).as_canonical_u64()).collect();
        (key, on_row(&i.count, row).as_canonical_u64())
    };
    assert_eq!(values("urange8", 0, &row), (vec![0], val(-2)));
    assert_eq!(values("noised_packed", 0, &row), (vec![100, 0, 0], val(-4)));
    assert_eq!(values("noised_packed", 3, &row), (vec![103, 0, 55], 0));
    assert_eq!(values("noised_packed", 8, &row), (vec![8, 0, 0], 0));
    row[IS_MSG_MAT] = 1;
    row[IS_UPDATE_CUMSUM] = 1;
    assert_eq!(values("noised_packed", 3, &row), (vec![103, 0, 55], val(-6)));
    assert_eq!(values("noised_packed", 8, &row), (vec![8, 0, 0], 1));
    assert_eq!(values("noised_packed", 19, &row), (vec![103, 0, 55], 1));
    assert_eq!(values("i8u8", 2, &row), (vec![3 * 256 + 9], 1));
    assert_eq!(values("cv_routing", 0, &row).0.len(), 9);
}

#[test]
fn pinned_lookups_share_the_program() {
    let program = extract_program(&build_baseline_trace(4));
    let air = CompositeFullAirWithLookupsPinned::new(program);
    assert_eq!(air.preprocessed_width(), 22);
    assert_eq!(air.preprocessed_trace().values[3 * 22 + 19], 3);
    let mut rules = ConstraintBuilder::new();
    let mut buses = InteractionBuilder::new();
    air.eval(&mut rules, &mut buses, ConstraintBuilder::new());
    let with_stripes = rules.constraints.len();
    let program = extract_program(&build_baseline_trace(4));
    let mut rules = ConstraintBuilder::new();
    CompositeFullAirWithLookupsPinned::try_new_with(program, false).ok().unwrap().eval(
        &mut rules,
        &mut buses,
        ConstraintBuilder::new(),
    );
    assert_eq!(with_stripes, rules.constraints.len() + 1);
    let bad = RowMajorMatrix { values: vec![0; 5], width: 5 };
    assert!(matches!(
        CompositeFullAirWithLookupsPinned::try_new(bad),
        Err(ProgramShapeError::WidthMismatch { expected: 22, actual: 5 })
    ));
}
