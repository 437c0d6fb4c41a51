use ai_pow_zk::chips::tile_reduce::{
    build_trace, cols, new_at_row, ref_x_steps, TileReduceChip, IN_LEN,
};
use ai_pow_zk::air::{ConstraintBuilder, Expr, Rows};
use ai_pow_zk::matrix::RowMajorMatrix;
use p3_air::{check_all_constraints, Air, AirBuilder, BaseAir, WindowAccess};
use p3_goldilocks::Goldilocks;
use p3_matrix::dense::RowMajorMatrix as Dense;
use p3_field::integers::QuotientMap;
use p3_field::PrimeField64;

/// A constraint system of the library, as the proof system sees it.
struct System {
    width: usize,
    public: usize,
    rules: ConstraintBuilder,
    fixed: Option<Dense<Goldilocks>>,
}

impl BaseAir<Goldilocks> for System {
    fn width(&self) -> usize {
        self.width
    }
    fn num_public_values(&self) -> usize {
        self.public
    }
    fn preprocessed_width(&self) -> usize {
        self.fixed.as_ref().map_or(0, |m| m.width)
    }
    fn preprocessed_trace(&self) -> Option<Dense<Goldilocks>> {
        self.fixed.clone()
    }
}

/// A polynomial of the library, in the proof system's terms.
fn polynomial<AB: AirBuilder<F = Goldilocks>>(
    e: &Expr,
    cur: &[AB::Var],
    nxt: &[AB::Var],
    fixed: &[AB::Var],
    public: &[AB::PublicVar],
) -> AB::Expr {
    match e {
        Expr::Const(c) => AB::Expr::from(Goldilocks::new(*c)),
        Expr::Cur(i) => cur[*i].into(),
        Expr::Next(i) => nxt[*i].into(),
        Expr::Fixed(i) => fixed[*i].into(),
        Expr::Public(i) => public[*i].into(),
        Expr::Add(a, b) => {
            polynomial::<AB>(a, cur, nxt, fixed, public)
                + polynomial::<AB>(b, cur, nxt, fixed, public)
        }
        Expr::Sub(a, b) => {
            polynomial::<AB>(a, cur, nxt, fixed, public)
                - polynomial::<AB>(b, cur, nxt, fixed, public)
        }
        Expr::Mul(a, b) => {
            polynomial::<AB>(a, cur, nxt, fixed, public)
                * polynomial::<AB>(b, cur, nxt, fixed, public)
        }
    }
}

impl<AB: AirBuilder<F = Goldilocks>> Air<AB> for System {
    fn eval(&self, builder: &mut AB) {
        let main = builder.main();
        let cur = main.current_slice().to_vec();
        let nxt = main.next_slice().to_vec();
        let fixed = if self.fixed.is_some() {
            builder.preprocessed().current_slice().to_vec()
        } else {
            Vec::new()
        };
        let public = builder.public_values().to_vec();
        for c in &self.rules.constraints {
            let e = polynomial::<AB>(&c.expr, &cur, &nxt, &fixed, &public);
            match c.rows {
                Rows::All => builder.assert_zero(e),
                Rows::First => builder.when_first_row().assert_zero(e),
                Rows::Last => builder.when_last_row().assert_zero(e),
                Rows::Transition => builder.when_transition().assert_zero(e),
            }
        }
    }
}

/// A trace of the library, as the proof system sees it.
fn dense(m: &RowMajorMatrix) -> Dense<Goldilocks> {
    Dense::new(m.values.iter().map(|&v| Goldilocks::new(v)).collect(), m.width)
}

/// Whether a trace meets every constraint on every row.
fn accepts(system: &System, trace: &RowMajorMatrix) -> bool {
    check_all_constraints(system, &dense(trace), &[], Some(1)).is_ok()
}

/// The field element of an integer.
fn val(x: i64) -> u64 {
    <Goldilocks as QuotientMap<i64>>::from_int(x).as_canonical_u64()
}

/// The chip's constraint system.
fn system() -> System {
    let mut rules = ConstraintBuilder::new();
    TileReduceChip.eval(&mut rules);
    System { width: TileReduceChip.width(), public: 0, rules, fixed: None }
}

fn lcg(seed: u64, n: usize) -> Vec<i32> {
    let mut s = seed;
    (0..n)
        .map(|_| {
            s = s.wrapping_mul(6364136223846793005).wrapping_add(1442695040888963407);
            (s >> 32) as i32
        })
        .collect()
}

fn stripes_of(raw: &[i32], n_stripes: usize, n_sb: usize) -> Vec<Vec<[i32; IN_LEN]>> {
    (0..n_stripes)
        .map(|s| {
            (0..n_sb)
                .map(|sb| {
                    let base = (s * n_sb + sb) * IN_LEN;
                    core::array::from_fn(|k| raw[base + k])
                })
                .collect()
        })
        .collect()
}

fn honest() -> (RowMajorMatrix, Vec<usize>) {
    build_trace(&stripes_of(&lcg(7, 16 * 4 * IN_LEN), 16, 4))
}

#[test]
fn stripe_reduce_matches_reference_and_verifies() {
    let sys = system();
    for (n_stripes, n_sb) in [(1usize, 1usize), (16, 4), (65, 4), (128, 2), (512, 1)] {
        let raw = lcg(0xC0DE ^ (n_stripes as u64), n_stripes * n_sb * IN_LEN);
        let stripes = stripes_of(&raw, n_stripes, n_sb);
        let refs = ref_x_steps(&stripes);
        let (trace, last) = build_trace(&stripes);
        for s in 0..n_stripes {
            assert_eq!(
                new_at_row(&trace, last[s]),
                refs[s],
                "n_stripes={n_stripes} n_sb={n_sb}: stripe {s} x_step vs reference",
            );
        }
        assert!(accepts(&sys, &trace), "honest stripe-reduce (n_stripes={n_stripes}) must verify");
    }
}

#[test]
fn rejects_missing_stripe_reset() {
    let (mut t, _) = honest();
    let r = 4;
    assert_eq!(t.values[r * cols::ROW_W + cols::STRIPE_RESET], 1);
    t.values[r * cols::ROW_W + cols::STRIPE_RESET] = val(0);
    assert!(!accepts(&system(), &t), "clearing a stripe reset must break the trace");
}

#[test]
fn rejects_tampered_new_without_bits() {
    let (mut t, _) = honest();
    t.values[2 * cols::ROW_W + cols::NEW] = val(0x7);
    assert!(!accepts(&system(), &t), "NEW inconsistent with its bits must reject");
}

#[test]
fn tile_reduce_rejects_out_of_range_q() {
    let (mut t, _) = honest();
    t.values[cols::Q] = val(3);
    assert!(!accepts(&system(), &t), "out-of-range Q (=3) must reject");
}

#[test]
fn x_steps_of_known_cells() {
    let stripes = vec![vec![[1, 2, 4, 8], [16, 0, 0, -1]], vec![[7, 7, 7, 7]]];
    assert_eq!(ref_x_steps(&stripes), vec![0xFFFF_FFE0, 0]);
    let (trace, last) = build_trace(&stripes);
    assert_eq!(last, vec![1, 2]);
    assert_eq!(new_at_row(&trace, 1), 0xFFFF_FFE0);
    assert_eq!(new_at_row(&trace, 2), 0);
}
