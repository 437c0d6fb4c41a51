use ai_pow_zk::chips::stripe_xor::{
    build_trace, build_trace_segmented, cols, final_register, ref_stripe_xor, register_at_row,
    StripeXorChip, IN_LEN, STATE_LEN,
};
use ai_pow_zk::air::{ConstraintBuilder, Expr, Rows};
use ai_pow_zk::matrix::RowMajorMatrix;
use p3_air::{check_all_constraints, Air, AirBuilder, BaseAir, WindowAccess};
use p3_goldilocks::Goldilocks;
use p3_matrix::dense::RowMajorMatrix as Dense;
use p3_field::integers::QuotientMap;
use p3_field::PrimeField64;

/// A constraint system of the library, as the proof system sees it.
struct System {
    width: usize,
    public: usize,
    rules: ConstraintBuilder,
    fixed: Option<Dense<Goldilocks>>,
}

impl BaseAir<Goldilocks> for System {
    fn width(&self) -> usize {
        self.width
    }
    fn num_public_values(&self) -> usize {
        self.public
    }
    fn preprocessed_width(&self) -> usize {
        self.fixed.as_ref().map_or(0, |m| m.width)
    }
    fn preprocessed_trace(&self) -> Option<Dense<Goldilocks>> {
        self.fixed.clone()
    }
}

/// A polynomial of the library, in the proof system's terms.
fn polynomial<AB: AirBuilder<F = Goldilocks>>(
    e: &Expr,
    cur: &[AB::Var],
    nxt: &[AB::Var],
    fixed: &[AB::Var],
    public: &[AB::PublicVar],
) -> AB::Expr {
    match e {
        Expr::Const(c) => AB::Expr::from(Goldilocks::new(*c)),
        Expr::Cur(i) => cur[*i].into(),
        Expr::Next(i) => nxt[*i].into(),
        Expr::Fixed(i) => fixed[*i].into(),
        Expr::Public(i) => public[*i].into(),
        Expr::Add(a, b) => {
            polynomial::<AB>(a, cur, nxt, fixed, public)
                + polynomial::<AB>(b, cur, nxt, fixed, public)
        }
        Expr::Sub(a, b) => {
            polynomial::<AB>(a, cur, nxt, fixed, public)
                - polynomial::<AB>(b, cur, nxt, fixed, public)
        }
        Expr::Mul(a, b) => {
            polynomial::<AB>(a, cur, nxt, fixed, public)
                * polynomial::<AB>(b, cur, nxt, fixed, public)
        }
    }
}

impl<AB: AirBuilder<F = Goldilocks>> Air<AB> for System {
    fn eval(&self, builder: &mut AB) {
        let main = builder.main();
        let cur = main.current_slice().to_vec();
        let nxt = main.next_slice().to_vec();
        let fixed = if self.fixed.is_some() {
            builder.preprocessed().current_slice().to_vec()
        } else {
            Vec::new()
        };
        let public = builder.public_values().to_vec();
        for c in &self.rules.constraints {
            let e = polynomial::<AB>(&c.expr, &cur, &nxt, &fixed, &public);
            match c.rows {
                Rows::All => builder.assert_zero(e),
                Rows::First => builder.when_first_row().assert_zero(e),
                Rows::Last => builder.when_last_row().assert_zero(e),
                Rows::Transition => builder.when_transition().assert_zero(e),
            }
        }
    }
}

/// A trace of the library, as the proof system sees it.
fn dense(m: &RowMajorMatrix) -> Dense<Goldilocks> {
    Dense::new(m.values.iter().map(|&v| Goldilocks::new(v)).collect(), m.width)
}

/// Whether a trace meets every constraint on every row.
fn accepts(system: &System, trace: &RowMajorMatrix) -> bool {
    check_all_constraints(system, &dense(trace), &[], Some(1)).is_ok()
}

/// The field element of an integer.
fn val(x: i64) -> u64 {
    <Goldilocks as QuotientMap<i64>>::from_int(x).as_canonical_u64()
}

/// The chip's constraint system.
fn system() -> System {
    let mut rules = ConstraintBuilder::new();
    StripeXorChip.eval(&mut rules);
    System { width: StripeXorChip.width(), public: 0, rules, fixed: None }
}

fn lcg(seed: u64, n: usize) -> Vec<i32> {
    let mut s = seed;
    (0..n)
        .map(|_| {
            s = s.wrapping_mul(6364136223846793005).wrapping_add(1442695040888963407);
            (s >> 32) as i32
        })
        .collect()
}

/// One segment, sub-block by sub-block.
fn seg_events(seed: u64, n_sb: usize, n_stripes: usize) -> Vec<(usize, [i32; IN_LEN])> {
    let raw = lcg(seed, n_sb * n_stripes * IN_LEN);
    let mut ev = Vec::new();
    for sb in 0..n_sb {
        for step in 0..n_stripes {
            let base = (sb * n_stripes + step) * IN_LEN;
            ev.push((step, core::array::from_fn(|k| raw[base + k])));
        }
    }
    ev
}

fn honest() -> RowMajorMatrix {
    build_trace(&seg_events(99, 16, 16))
}

#[test]
fn final_register_matches_reference_and_verifies() {
    let sys = system();
    for (n_sb, n_stripes) in
        [(1usize, 4usize), (16, 16), (4, 8), (16, 1), (4, 20), (8, 64), (1, 64)]
    {
        let events = seg_events(0xABCD ^ (n_sb as u64), n_sb, n_stripes);
        let trace = build_trace(&events);
        assert_eq!(
            final_register(&trace),
            ref_stripe_xor(&events),
            "n_sb={n_sb} n_stripes={n_stripes}: register vs reference"
        );
        assert!(accepts(&sys, &trace), "honest stripe-xor trace must verify");
    }
}

#[test]
fn segmented_reset_isolates_segments_and_verifies() {
    let sys = system();
    for (n_seg, stripes, n_sb) in [(2usize, 64usize, 4usize), (8, 64, 1), (3, 40, 2)] {
        let owned: Vec<Vec<(usize, [i32; IN_LEN])>> = (0..n_seg)
            .map(|g| seg_events(0x51E9 ^ (g as u64) ^ ((stripes as u64) << 8), n_sb, stripes))
            .collect();
        let refs: Vec<[u32; STATE_LEN]> = owned.iter().map(|e| ref_stripe_xor(e)).collect();
        let segs: Vec<&[(usize, [i32; IN_LEN])]> = owned.iter().map(|e| e.as_slice()).collect();
        let (trace, gaps) = build_trace_segmented(&segs);
        for g in 0..n_seg {
            assert_eq!(
                register_at_row(&trace, gaps[g]),
                refs[g],
                "n_seg={n_seg} stripes={stripes}: segment {g} register vs its own reference",
            );
        }
        assert!(accepts(&sys, &trace), "honest segmented trace (n_seg={n_seg}) must verify");
    }
}

#[test]
fn rejects_cleared_segment_reset() {
    let owned = [seg_events(1, 4, 64), seg_events(2, 4, 64)];
    let segs: Vec<&[(usize, [i32; IN_LEN])]> = owned.iter().map(|e| e.as_slice()).collect();
    let (mut trace, _gaps) = build_trace_segmented(&segs);
    let seg1_first = 4 * 64 + 1;
    assert_eq!(trace.values[seg1_first * cols::ROW_W + cols::SEG_RESET], 1);
    trace.values[seg1_first * cols::ROW_W + cols::SEG_RESET] = 0;
    assert!(!accepts(&system(), &trace), "clearing a reset must break the segmented trace");
}

#[test]
fn matches_manual_bit_parity() {
    let n_sb = 16;
    let n_stripes = 16;
    let raw = lcg(7, n_sb * n_stripes * IN_LEN);
    let mut events = Vec::new();
    let mut want = [0u32; STATE_LEN];
    for sb in 0..n_sb {
        for step in 0..n_stripes {
            let base = (sb * n_stripes + step) * IN_LEN;
            let in4: [i32; IN_LEN] = core::array::from_fn(|k| raw[base + k]);
            for &v in &in4 {
                want[step] ^= v as u32;
            }
            events.push((step, in4));
        }
    }
    assert_eq!(final_register(&build_trace(&events)), want);
}

#[test]
fn rejects_tampered_register() {
    let mut t = honest();
    let h = t.values.len() / cols::ROW_W;
    t.values[(h - 2) * cols::ROW_W + cols::XR] = val(0xDEAD_BEEF);
    assert!(!accepts(&system(), &t), "tampered XR must reject");
}

#[test]
fn rejects_nonzero_first_row_register() {
    let mut t = honest();
    t.values[cols::XR + 3] = val(1);
    assert!(!accepts(&system(), &t), "non-zero initial register must reject");
}

#[test]
fn rejects_tampered_new_sel_without_bits() {
    let mut t = honest();
    t.values[2 * cols::ROW_W + cols::NEW_SEL] = val(0x7);
    assert!(!accepts(&system(), &t), "NEW_SEL inconsistent with its bits must reject");
}

#[test]
fn rejects_double_lane_selection() {
    let mut t = honest();
    t.values[cols::ROW_W + cols::LANE_SEL + 9] = val(1);
    assert!(!accepts(&system(), &t), "two active LANE_SEL bits must reject");
}

#[test]
fn stripe_xor_rejects_out_of_range_q() {
    let mut t = honest();
    t.values[cols::Q] = val(3);
    assert!(!accepts(&system(), &t), "out-of-range Q (= 3) must reject");
}

#[test]
fn rejects_lane_passthrough_violation() {
    let mut t = honest();
    let h = t.values.len() / cols::ROW_W;
    t.values[(h - 1) * cols::ROW_W + cols::XR + 5] = val(0x1234);
    assert!(!accepts(&system(), &t), "non-selected-lane mutation must break passthrough");
}

/// Without resets in force a single-segment trace is accepted as well.
#[test]
fn reset_free_rules_accept_one_segment() {
    let mut rules = ConstraintBuilder::new();
    StripeXorChip::eval_at(&mut rules, &StripeXorChip::local_offsets());
    let sys = System { width: cols::ROW_W, public: 0, rules, fixed: None };
    assert!(accepts(&sys, &honest()));
}

/// The gap row of an empty segment still holds the register before it.
#[test]
fn empty_segment_keeps_previous_register() {
    let a = seg_events(5, 1, 3);
    let empty: Vec<(usize, [i32; IN_LEN])> = Vec::new();
    let segs: Vec<&[(usize, [i32; IN_LEN])]> = vec![a.as_slice(), empty.as_slice()];
    let (trace, gaps) = build_trace_segmented(&segs);
    assert_eq!(gaps, vec![3, 4]);
    assert_eq!(register_at_row(&trace, 4), ref_stripe_xor(&a));
    assert!(accepts(&system(), &trace));
}

#[test]
fn fold_of_negative_words_is_exact() {
    let events = [(3usize, [-1, 0, 0x0F0F_0F0F, i32::MIN])];
    let trace = build_trace(&events);
    assert_eq!(ref_stripe_xor(&events)[3], 0x70F0_F0F0);
    assert_eq!(final_register(&trace)[3], 0x70F0_F0F0);
    assert_eq!(trace.values[cols::IN], val(-1));
    assert_eq!(trace.values[cols::IN + 3], val(i32::MIN as i64));
    assert!(accepts(&system(), &trace));
}
