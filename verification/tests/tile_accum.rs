use ai_pow_zk::chips::tile_accum::{
    acc_at_row, build_trace, cols, ref_accumulate, TileAccumChip, SB_CELLS,
};
use ai_pow_zk::air::{ConstraintBuilder, Expr, Rows};
use ai_pow_zk::matrix::RowMajorMatrix;
use p3_air::{check_all_constraints, Air, AirBuilder, BaseAir, WindowAccess};
use p3_goldilocks::Goldilocks;
use p3_matrix::dense::RowMajorMatrix as Dense;
use p3_field::integers::QuotientMap;
use p3_field::PrimeField64;

/// A constraint system of the library, as the proof system sees it.
struct System {
    width: usize,
    public: usize,
    rules: ConstraintBuilder,
    fixed: Option<Dense<Goldilocks>>,
}

impl BaseAir<Goldilocks> for System {
    fn width(&self) -> usize {
        self.width
    }
    fn num_public_values(&self) -> usize {
        self.public
    }
    fn preprocessed_width(&self) -> usize {
        self.fixed.as_ref().map_or(0, |m| m.width)
    }
    fn preprocessed_trace(&self) -> Option<Dense<Goldilocks>> {
        self.fixed.clone()
    }
}

/// A polynomial of the library, in the proof system's terms.
fn polynomial<AB: AirBuilder<F = Goldilocks>>(
    e: &Expr,
    cur: &[AB::Var],
    nxt: &[AB::Var],
    fixed: &[AB::Var],
    public: &[AB::PublicVar],
) -> AB::Expr {
    match e {
        Expr::Const(c) => AB::Expr::from(Goldilocks::new(*c)),
        Expr::Cur(i) => cur[*i].into(),
        Expr::Next(i) => nxt[*i].into(),
        Expr::Fixed(i) => fixed[*i].into(),
        Expr::Public(i) => public[*i].into(),
        Expr::Add(a, b) => {
            polynomial::<AB>(a, cur, nxt, fixed, public)
                + polynomial::<AB>(b, cur, nxt, fixed, public)
        }
        Expr::Sub(a, b) => {
            polynomial::<AB>(a, cur, nxt, fixed, public)
                - polynomial::<AB>(b, cur, nxt, fixed, public)
        }
        Expr::Mul(a, b) => {
            polynomial::<AB>(a, cur, nxt, fixed, public)
                * polynomial::<AB>(b, cur, nxt, fixed, public)
        }
    }
}

impl<AB: AirBuilder<F = Goldilocks>> Air<AB> for System {
    fn eval(&self, builder: &mut AB) {
        let main = builder.main();
        let cur = main.current_slice().to_vec();
        let nxt = main.next_slice().to_vec();
        let fixed = if self.fixed.is_some() {
            builder.preprocessed().current_slice().to_vec()
        } else {
            Vec::new()
        };
        let public = builder.public_values().to_vec();
        for c in &self.rules.constraints {
            let e = polynomial::<AB>(&c.expr, &cur, &nxt, &fixed, &public);
            match c.rows {
                Rows::All => builder.assert_zero(e),
                Rows::First => builder.when_first_row().assert_zero(e),
                Rows::Last => builder.when_last_row().assert_zero(e),
                Rows::Transition => builder.when_transition().assert_zero(e),
            }
        }
    }
}

/// A trace of the library, as the proof system sees it.
fn dense(m: &RowMajorMatrix) -> Dense<Goldilocks> {
    Dense::new(m.values.iter().map(|&v| Goldilocks::new(v)).collect(), m.width)
}

/// Whether a trace meets every constraint on every row.
fn accepts(system: &System, trace: &RowMajorMatrix) -> bool {
    check_all_constraints(system, &dense(trace), &[], Some(1)).is_ok()
}

/// The field element of an integer.
fn val(x: i64) -> u64 {
    <Goldilocks as QuotientMap<i64>>::from_int(x).as_canonical_u64()
}

/// The chip's constraint system.
fn system() -> System {
    let mut rules = ConstraintBuilder::new();
    TileAccumChip.eval(&mut rules);
    System { width: TileAccumChip.width(), public: 0, rules, fixed: None }
}

fn lcg(seed: u64, n: usize) -> Vec<i32> {
    let mut s = seed;
    (0..n)
        .map(|_| {
            s = s.wrapping_mul(6364136223846793005).wrapping_add(1442695040888963407);
            ((s >> 40) as i32) % 4096
        })
        .collect()
}

fn dots_of(raw: &[i32], n_stripes: usize, n_sb: usize) -> Vec<Vec<[i32; SB_CELLS]>> {
    (0..n_stripes)
        .map(|s| {
            (0..n_sb)
                .map(|sb| {
                    let base = (s * n_sb + sb) * SB_CELLS;
                    core::array::from_fn(|k| raw[base + k])
                })
                .collect()
        })
        .collect()
}

fn honest() -> RowMajorMatrix {
    build_trace(4, &dots_of(&lcg(11, 16 * 4 * SB_CELLS), 16, 4))
}

#[test]
fn accumulator_matches_reference_and_verifies() {
    let sys = system();
    for (n_stripes, n_sb) in [(1usize, 1usize), (16, 4), (65, 4), (128, 2), (512, 1)] {
        let raw = lcg(0xACC ^ (n_stripes as u64), n_stripes * n_sb * SB_CELLS);
        let dots = dots_of(&raw, n_stripes, n_sb);
        let (want_acc, _) = ref_accumulate(n_sb, &dots);
        let trace = build_trace(n_sb, &dots);
        let h = trace.values.len() / cols::ROW_W;
        assert_eq!(
            acc_at_row(&trace, h - 1, n_sb * SB_CELLS),
            want_acc,
            "n_stripes={n_stripes} n_sb={n_sb}: final accumulator vs reference",
        );
        assert!(accepts(&sys, &trace), "honest accumulator (n_stripes={n_stripes}) must verify");
    }
}

#[test]
fn rejects_tampered_accumulator() {
    let mut t = honest();
    let h = t.values.len() / cols::ROW_W;
    t.values[(h - 2) * cols::ROW_W + cols::ACC + 3] = val(0xDEAD);
    assert!(!accepts(&system(), &t), "tampered ACC must reject");
}

#[test]
fn rejects_nonselected_cell_mutation() {
    let mut t = honest();
    let h = t.values.len() / cols::ROW_W;
    t.values[(h - 1) * cols::ROW_W + cols::ACC + 7] = val(0x1234);
    assert!(!accepts(&system(), &t), "non-selected-cell mutation must break the recurrence");
}

#[test]
fn rejects_reset_on_later_stripe() {
    let mut t = honest();
    t.values[4 * cols::ROW_W + cols::IS_RESET] = val(1);
    assert!(!accepts(&system(), &t), "spurious IS_RESET must break the recurrence");
}

#[test]
fn accumulates_by_hand() {
    let dots = vec![vec![[1, -2, 3, -4], [5, 6, 7, 8]], vec![[10, 20, 30, 40]]];
    let (acc, per) = ref_accumulate(2, &dots);
    assert_eq!(acc, vec![11, 18, 33, 36, 5, 6, 7, 8]);
    assert_eq!(per, vec![vec![[1, -2, 3, -4], [5, 6, 7, 8]], vec![[11, 18, 33, 36]]]);
    let trace = build_trace(2, &dots);
    assert_eq!(acc_at_row(&trace, 1, 8), vec![1, -2, 3, -4, 0, 0, 0, 0]);
    assert_eq!(acc_at_row(&trace, 3, 8), acc);
    assert!(accepts(&system(), &trace));
}

/// A sum that wraps around is what the plain words give, and is no longer the
/// field's sum.
#[test]
fn wrapping_sum_is_not_the_field_sum() {
    let dots = vec![vec![[i32::MAX, 0, 0, 0]], vec![[1, 0, 0, 0]]];
    let (acc, _) = ref_accumulate(1, &dots);
    assert_eq!(acc[0], i32::MIN);
    let trace = build_trace(1, &dots);
    assert_eq!(acc_at_row(&trace, 3, 4)[0], i32::MIN);
    assert!(!accepts(&system(), &trace));
}
