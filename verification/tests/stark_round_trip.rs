use ai_pow_zk::chips::jackpot::chip::{build_trace as jackpot_trace, JackpotChip, Step};
use ai_pow_zk::chips::tile_reduce::{build_trace as reduce_trace, TileReduceChip};
use ai_pow_zk::circuit::CircuitConfig;
use p3_challenger::DuplexChallenger;
use p3_commit::ExtensionMmcs;
use p3_dft::Radix2DitParallel;
use p3_field::extension::BinomialExtensionField;
use p3_field::Field;
use p3_fri::{FriParameters, TwoAdicFriPcs};
use p3_goldilocks::{default_goldilocks_poseidon2_8, Poseidon2Goldilocks};
use p3_merkle_tree::MerkleTreeMmcs;
use p3_symmetric::{PaddingFreeSponge, TruncatedPermutation};
use p3_uni_stark::{prove, verify, StarkConfig};
use ai_pow_zk::air::{ConstraintBuilder, Expr, Rows};
use ai_pow_zk::matrix::RowMajorMatrix;
use p3_air::{check_all_constraints, Air, AirBuilder, BaseAir, WindowAccess};
use p3_goldilocks::Goldilocks;
use p3_matrix::dense::RowMajorMatrix as Dense;

/// A constraint system of the library, as the proof system sees it.
struct System {
    width: usize,
    public: usize,
    rules: ConstraintBuilder,
    fixed: Option<Dense<Goldilocks>>,
}

impl BaseAir<Goldilocks> for System {
    fn width(&self) -> usize {
        self.width
    }
    fn num_public_values(&self) -> usize {
        self.public
    }
    fn preprocessed_width(&self) -> usize {
        self.fixed.as_ref().map_or(0, |m| m.width)
    }
    fn preprocessed_trace(&self) -> Option<Dense<Goldilocks>> {
        self.fixed.clone()
    }
}

/// A polynomial of the library, in the proof system's terms.
fn polynomial<AB: AirBuilder<F = Goldilocks>>(
    e: &Expr,
    cur: &[AB::Var],
    nxt: &[AB::Var],
    fixed: &[AB::Var],
    public: &[AB::PublicVar],
) -> AB::Expr {
    match e {
        Expr::Const(c) => AB::Expr::from(Goldilocks::new(*c)),
        Expr::Cur(i) => cur[*i].into(),
        Expr::Next(i) => nxt[*i].into(),
        Expr::Fixed(i) => fixed[*i].into(),
        Expr::Public(i) => public[*i].into(),
        Expr::Add(a, b) => {
            polynomial::<AB>(a, cur, nxt, fixed, public)
                + polynomial::<AB>(b, cur, nxt, fixed, public)
        }
        Expr::Sub(a, b) => {
            polynomial::<AB>(a, cur, nxt, fixed, public)
                - polynomial::<AB>(b, cur, nxt, fixed, public)
        }
        Expr::Mul(a, b) => {
            polynomial::<AB>(a, cur, nxt, fixed, public)
                * polynomial::<AB>(b, cur, nxt, fixed, public)
        }
    }
}

impl<AB: AirBuilder<F = Goldilocks>> Air<AB> for System {
    fn eval(&self, builder: &mut AB) {
        let main = builder.main();
        let cur = main.current_slice().to_vec();
        let nxt = main.next_slice().to_vec();
        let fixed = if self.fixed.is_some() {
            builder.preprocessed().current_slice().to_vec()
        } else {
            Vec::new()
        };
        let public = builder.public_values().to_vec();
        for c in &self.rules.constraints {
            let e = polynomial::<AB>(&c.expr, &cur, &nxt, &fixed, &public);
            match c.rows {
                Rows::All => builder.assert_zero(e),
                Rows::First => builder.when_first_row().assert_zero(e),
                Rows::Last => builder.when_last_row().assert_zero(e),
                Rows::Transition => builder.when_transition().assert_zero(e),
            }
        }
    }
}

/// A trace of the library, as the proof system sees it.
fn dense(m: &RowMajorMatrix) -> Dense<Goldilocks> {
    Dense::new(m.values.iter().map(|&v| Goldilocks::new(v)).collect(), m.width)
}

/// Whether a trace meets every constraint on every row.
fn accepts(system: &System, trace: &RowMajorMatrix) -> bool {
    check_all_constraints(system, &dense(trace), &[], Some(1)).is_ok()
}

type Perm = Poseidon2Goldilocks<8>;
type Hash = PaddingFreeSponge<Perm, 8, 4, 4>;
type Compress = TruncatedPermutation<Perm, 2, 4, 8>;
type Packing = <Goldilocks as Field>::Packing;
type ValMmcs = MerkleTreeMmcs<Packing, Packing, Hash, Compress, 2, 4>;
type Challenge = BinomialExtensionField<Goldilocks, 2>;
type ChallengeMmcs = ExtensionMmcs<Goldilocks, Challenge, ValMmcs>;
type Challenger = DuplexChallenger<Goldilocks, Perm, 8, 4>;
type Dft = Radix2DitParallel<Goldilocks>;
type Pcs = TwoAdicFriPcs<Goldilocks, Dft, ValMmcs, ChallengeMmcs>;
type Config = StarkConfig<Pcs, Challenge, Challenger>;

/// A proof system configuration with the library's settings.
fn config() -> Config {
    let perm = default_goldilocks_poseidon2_8();
    let val_mmcs = ValMmcs::new(Hash::new(perm.clone()), Compress::new(perm.clone()), 0);
    let settings = CircuitConfig::test_pearl().fri_settings();
    let fri = FriParameters {
        log_blowup: settings.log_blowup,
        log_final_poly_len: settings.log_final_poly_len,
        max_log_arity: settings.max_log_arity,
        num_queries: settings.num_queries,
        commit_proof_of_work_bits: settings.commit_proof_of_work_bits,
        query_proof_of_work_bits: settings.query_proof_of_work_bits,
        mmcs: ChallengeMmcs::new(val_mmcs.clone()),
    };
    Config::new(Pcs::new(Dft::default(), val_mmcs, fri), Challenger::new(perm))
}

#[test]
fn reduction_proof_verifies() {
    let mut rules = ConstraintBuilder::new();
    TileReduceChip.eval(&mut rules);
    let sys = System { width: TileReduceChip.width(), public: 0, rules, fixed: None };
    let stripes = vec![vec![[1, -2, 3, -4], [5, 6, 7, 8]], vec![[-9, 10, 11, 12]]];
    let (trace, _) = reduce_trace(&stripes);
    assert!(accepts(&sys, &trace));
    let proof = prove(&config(), &sys, dense(&trace), &[]);
    assert!(verify(&config(), &sys, &proof, &[]).is_ok());
}

#[test]
fn jackpot_proof_verifies() {
    let mut rules = ConstraintBuilder::new();
    JackpotChip.eval(&mut rules);
    let sys = System { width: JackpotChip.width(), public: 0, rules, fixed: None };
    let steps: Vec<Step> = (0..8)
        .map(|i| Step { selected_slot: (i * 5) % 16, x: i as u32 * 77, is_active: true })
        .collect();
    let trace = jackpot_trace(&core::array::from_fn(|i| i as u32 + 1), &steps);
    let proof = prove(&config(), &sys, dense(&trace), &[]);
    assert!(verify(&config(), &sys, &proof, &[]).is_ok());
}
