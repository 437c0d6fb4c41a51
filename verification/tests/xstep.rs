use ai_pow_zk::chips::xstep::{build_trace, cols, ref_xstep, xsteps, XStepChip, ACC_LEN};
use ai_pow_zk::air::{ConstraintBuilder, Expr, Rows};
use ai_pow_zk::matrix::RowMajorMatrix;
use p3_air::{check_all_constraints, Air, AirBuilder, BaseAir, WindowAccess};
use p3_goldilocks::Goldilocks;
use p3_matrix::dense::RowMajorMatrix as Dense;
use p3_field::integers::QuotientMap;
use p3_field::PrimeField64;

/// A constraint system of the library, as the proof system sees it.
struct System {
    width: usize,
    public: usize,
    rules: ConstraintBuilder,
    fixed: Option<Dense<Goldilocks>>,
}

impl BaseAir<Goldilocks> for System {
    fn width(&self) -> usize {
        self.width
    }
    fn num_public_values(&self) -> usize {
        self.public
    }
    fn preprocessed_width(&self) -> usize {
        self.fixed.as_ref().map_or(0, |m| m.width)
    }
    fn preprocessed_trace(&self) -> Option<Dense<Goldilocks>> {
        self.fixed.clone()
    }
}

/// A polynomial of the library, in the proof system's terms.
fn polynomial<AB: AirBuilder<F = Goldilocks>>(
    e: &Expr,
    cur: &[AB::Var],
    nxt: &[AB::Var],
    fixed: &[AB::Var],
    public: &[AB::PublicVar],
) -> AB::Expr {
    match e {
        Expr::Const(c) => AB::Expr::from(Goldilocks::new(*c)),
        Expr::Cur(i) => cur[*i].into(),
        Expr::Next(i) => nxt[*i].into(),
        Expr::Fixed(i) => fixed[*i].into(),
        Expr::Public(i) => public[*i].into(),
        Expr::Add(a, b) => {
            polynomial::<AB>(a, cur, nxt, fixed, public)
                + polynomial::<AB>(b, cur, nxt, fixed, public)
        }
        Expr::Sub(a, b) => {
            polynomial::<AB>(a, cur, nxt, fixed, public)
                - polynomial::<AB>(b, cur, nxt, fixed, public)
        }
        Expr::Mul(a, b) => {
            polynomial::<AB>(a, cur, nxt, fixed, public)
                * polynomial::<AB>(b, cur, nxt, fixed, public)
        }
    }
}

impl<AB: AirBuilder<F = Goldilocks>> Air<AB> for System {
    fn eval(&self, builder: &mut AB) {
        let main = builder.main();
        let cur = main.current_slice().to_vec();
        let nxt = main.next_slice().to_vec();
        let fixed = if self.fixed.is_some() {
            builder.preprocessed().current_slice().to_vec()
        } else {
            Vec::new()
        };
        let public = builder.public_values().to_vec();
        for c in &self.rules.constraints {
            let e = polynomial::<AB>(&c.expr, &cur, &nxt, &fixed, &public);
            match c.rows {
                Rows::All => builder.assert_zero(e),
                Rows::First => builder.when_first_row().assert_zero(e),
                Rows::Last => builder.when_last_row().assert_zero(e),
                Rows::Transition => builder.when_transition().assert_zero(e),
            }
        }
    }
}

/// A trace of the library, as the proof system sees it.
fn dense(m: &RowMajorMatrix) -> Dense<Goldilocks> {
    Dense::new(m.values.iter().map(|&v| Goldilocks::new(v)).collect(), m.width)
}

/// Whether a trace meets every constraint on every row.
fn accepts(system: &System, trace: &RowMajorMatrix) -> bool {
    check_all_constraints(system, &dense(trace), &[], Some(1)).is_ok()
}

/// The field element of an integer.
fn val(x: i64) -> u64 {
    <Goldilocks as QuotientMap<i64>>::from_int(x).as_canonical_u64()
}

/// The chip's constraint system.
fn system() -> System {
    let mut rules = ConstraintBuilder::new();
    XStepChip.eval(&mut rules);
    System { width: XStepChip.width(), public: 0, rules, fixed: None }
}

fn lcg(seed: u64, n: usize) -> Vec<i32> {
    let mut s = seed;
    (0..n)
        .map(|_| {
            s = s.wrapping_mul(6364136223846793005).wrapping_add(1442695040888963407);
            (s >> 32) as i32
        })
        .collect()
}

fn honest() -> RowMajorMatrix {
    build_trace(&[lcg(7, ACC_LEN), lcg(8, ACC_LEN), lcg(9, 30)])
}

#[test]
fn xstep_matches_reference_and_verifies() {
    let stripes: Vec<Vec<i32>> = vec![
        lcg(1, ACC_LEN),
        lcg(2, ACC_LEN),
        lcg(3, 7),
        vec![0x7FFF_FFFF],
        vec![0; ACC_LEN],
        vec![-1i32; ACC_LEN],
    ];
    for s in &stripes {
        assert_eq!(
            xsteps(&build_trace(std::slice::from_ref(s)))[0],
            ref_xstep(s),
            "build_trace X_STEP must equal ref_xstep"
        );
    }
    let trace = build_trace(&stripes);
    assert!(accepts(&system(), &trace), "honest X_STEP reduction must verify");
    let want: Vec<u32> = stripes.iter().map(|s| ref_xstep(s)).collect();
    assert_eq!(xsteps(&trace), want);
}

#[test]
fn xstep_matches_manual_bit_parity() {
    let s = lcg(42, ACC_LEN);
    let mut bits = [0u32; 32];
    for &v in &s {
        for i in 0..32 {
            bits[i] ^= (v as u32 >> i) & 1;
        }
    }
    let want: u32 = (0..32).map(|i| bits[i] << i).sum();
    assert_eq!(xsteps(&build_trace(&[s]))[0], want);
}

#[test]
fn rejects_tampered_xstep() {
    let mut t = honest();
    t.values[cols::XSTEP] = val(0x1234);
    assert!(!accepts(&system(), &t), "tampered X_STEP must reject");
}

#[test]
fn rejects_tampered_acc_cell_without_bits() {
    let mut t = honest();
    t.values[cols::ACC + 5] = val(0xDEAD);
    assert!(!accepts(&system(), &t), "ACC/ACC_BITS mismatch must reject");
}

#[test]
fn rejects_flipped_xstep_bit_with_unbounded_q_attempt() {
    let mut t = honest();
    let cur = t.values[cols::XSTEP_BITS];
    t.values[cols::XSTEP_BITS] = 1 - cur;
    assert!(!accepts(&system(), &t), "flipped parity bit must reject (bounded Q)");
}

#[test]
fn rejects_out_of_range_q_bit() {
    let mut t = honest();
    t.values[cols::Q_BITS] = val(2);
    assert!(!accepts(&system(), &t), "non-boolean Q bit must reject");
}
