use std::sync::Arc;

use ai_pow_zk::bus::InteractionBuilder as Buses;
use ai_pow_zk::circuit::CircuitConfig;
use ai_pow_zk::composite_full_air::extract_program;
use ai_pow_zk::composite_full_air_with_lookups::CompositeFullAirWithLookupsPinned;
use ai_pow_zk::composite_layout::{
    IRANGE7P1_FREQ, IRANGE8_FREQ, STARK_ROW_IDX, TOTAL_TRACE_WIDTH, URANGE13_FREQ,
};
use ai_pow_zk::composite_lookup_proof::{build_trace, UrangeBusDemoAir};
use ai_pow_zk::composite_public::CompositePublicInputs;
use p3_challenger::DuplexChallenger;
use p3_commit::ExtensionMmcs;
use p3_dft::Radix2DitParallel;
use p3_field::extension::BinomialExtensionField;
use p3_field::Field;
use p3_fri::{FriParameters, TwoAdicFriPcs};
use p3_goldilocks::{default_goldilocks_poseidon2_8, Poseidon2Goldilocks};
use p3_merkle_tree::MerkleTreeMmcs;
use p3_symmetric::{PaddingFreeSponge, TruncatedPermutation};
use p3_uni_stark::StarkConfig;
use ai_pow_zk::air::{ConstraintBuilder, Expr, Rows};
use ai_pow_zk::matrix::RowMajorMatrix;
use p3_air::{Air, AirBuilder, BaseAir, WindowAccess};
use p3_batch_stark::{prove_batch, verify_batch, ProverData, StarkInstance};
use p3_lookup::{Count, InteractionBuilder};
use p3_goldilocks::Goldilocks;
use p3_matrix::dense::RowMajorMatrix as Dense;

/// A constraint system of the library, as the proof system sees it.
#[derive(Clone)]
struct System {
    width: usize,
    public: usize,
    rules: Arc<ConstraintBuilder>,
    fixed: Option<Dense<Goldilocks>>,
}

impl BaseAir<Goldilocks> for System {
    fn width(&self) -> usize {
        self.width
    }
    fn num_public_values(&self) -> usize {
        self.public
    }
    fn preprocessed_width(&self) -> usize {
        self.fixed.as_ref().map_or(0, |m| m.width)
    }
    fn preprocessed_trace(&self) -> Option<Dense<Goldilocks>> {
        self.fixed.clone()
    }
}

/// A polynomial of the library, in the proof system's terms.
fn polynomial<AB: AirBuilder<F = Goldilocks>>(
    e: &Expr,
    cur: &[AB::Var],
    nxt: &[AB::Var],
    fixed: &[AB::Var],
    public: &[AB::PublicVar],
) -> AB::Expr {
    match e {
        Expr::Const(c) => AB::Expr::from(Goldilocks::new(*c)),
        Expr::Cur(i) => cur[*i].into(),
        Expr::Next(i) => nxt[*i].into(),
        Expr::Fixed(i) => fixed[*i].into(),
        Expr::Public(i) => public[*i].into(),
        Expr::Add(a, b) => {
            polynomial::<AB>(a, cur, nxt, fixed, public)
                + polynomial::<AB>(b, cur, nxt, fixed, public)
        }
        Expr::Sub(a, b) => {
            polynomial::<AB>(a, cur, nxt, fixed, public)
                - polynomial::<AB>(b, cur, nxt, fixed, public)
        }
        Expr::Mul(a, b) => {
            polynomial::<AB>(a, cur, nxt, fixed, public)
                * polynomial::<AB>(b, cur, nxt, fixed, public)
        }
    }
}

impl<AB: AirBuilder<F = Goldilocks>> Air<AB> for System {
    fn eval(&self, builder: &mut AB) {
        let main = builder.main();
        let cur = main.current_slice().to_vec();
        let nxt = main.next_slice().to_vec();
        let fixed = if self.fixed.is_some() {
            builder.preprocessed().current_slice().to_vec()
        } else {
            Vec::new()
        };
        let public = builder.public_values().to_vec();
        for c in &self.rules.constraints {
            let e = polynomial::<AB>(&c.expr, &cur, &nxt, &fixed, &public);
            match c.rows {
                Rows::All => builder.assert_zero(e),
                Rows::First => builder.when_first_row().assert_zero(e),
                Rows::Last => builder.when_last_row().assert_zero(e),
                Rows::Transition => builder.when_transition().assert_zero(e),
            }
        }
    }
}

/// A trace of the library, as the proof system sees it.
fn dense(m: &RowMajorMatrix) -> Dense<Goldilocks> {
    Dense::new(m.values.iter().map(|&v| Goldilocks::new(v)).collect(), m.width)
}

type Perm = Poseidon2Goldilocks<8>;
type Hash = PaddingFreeSponge<Perm, 8, 4, 4>;
type Compress = TruncatedPermutation<Perm, 2, 4, 8>;
type Packing = <Goldilocks as Field>::Packing;
type ValMmcs = MerkleTreeMmcs<Packing, Packing, Hash, Compress, 2, 4>;
type Challenge = BinomialExtensionField<Goldilocks, 2>;
type ChallengeMmcs = ExtensionMmcs<Goldilocks, Challenge, ValMmcs>;
type Challenger = DuplexChallenger<Goldilocks, Perm, 8, 4>;
type Dft = Radix2DitParallel<Goldilocks>;
type Pcs = TwoAdicFriPcs<Goldilocks, Dft, ValMmcs, ChallengeMmcs>;
type Config = StarkConfig<Pcs, Challenge, Challenger>;

/// A proof system configuration with the library's settings.
fn config() -> Config {
    let perm = default_goldilocks_poseidon2_8();
    let val_mmcs = ValMmcs::new(Hash::new(perm.clone()), Compress::new(perm.clone()), 0);
    let settings = CircuitConfig::test_pearl().fri_settings();
    let fri = FriParameters {
        log_blowup: settings.log_blowup,
        log_final_poly_len: settings.log_final_poly_len,
        max_log_arity: settings.max_log_arity,
        num_queries: settings.num_queries,
        commit_proof_of_work_bits: settings.commit_proof_of_work_bits,
        query_proof_of_work_bits: settings.query_proof_of_work_bits,
        mmcs: ChallengeMmcs::new(val_mmcs.clone()),
    };
    Config::new(Pcs::new(Dft::default(), val_mmcs, fri), Challenger::new(perm))
}

/// A constraint system of the library with its buses.
#[derive(Clone)]
struct BusSystem {
    base: System,
    buses: Arc<Buses>,
}

impl BaseAir<Goldilocks> for BusSystem {
    fn width(&self) -> usize {
        self.base.width
    }
    fn num_public_values(&self) -> usize {
        self.base.public
    }
    fn preprocessed_width(&self) -> usize {
        self.base.preprocessed_width()
    }
    fn preprocessed_trace(&self) -> Option<Dense<Goldilocks>> {
        self.base.preprocessed_trace()
    }
}

impl<AB> Air<AB> for BusSystem
where
    AB: AirBuilder<F = Goldilocks> + InteractionBuilder,
{
    fn eval(&self, builder: &mut AB) {
        self.base.eval(builder);
        let main = builder.main();
        let cur = main.current_slice().to_vec();
        for i in &self.buses.interactions {
            let key: Vec<AB::Expr> =
                i.key.iter().map(|e| polynomial::<AB>(e, &cur, &[], &[], &[])).collect();
            let count = polynomial::<AB>(&i.count, &cur, &[], &[], &[]);
            builder.push_interaction(i.bus, key, Count::bounded(count, i.weight));
        }
    }
}

/// Proves and verifies a trace with its buses.
fn round_trip(system: &BusSystem, trace: &RowMajorMatrix, public: Vec<Goldilocks>) -> bool {
    let config = config();
    let matrix = dense(trace);
    let instances =
        vec![StarkInstance { air: system, trace: &matrix, public_values: public.clone() }];
    let data = ProverData::from_instances(&config, &instances);
    let proof = prove_batch(&config, &instances, &data);
    verify_batch(&config, std::slice::from_ref(system), &proof, &[public], &data.common).is_ok()
}

#[test]
fn byte_lookups_verify_in_a_batch() {
    let mut rules = ConstraintBuilder::new();
    let mut buses = Buses::new();
    UrangeBusDemoAir.eval(&mut rules, &mut buses);
    let system = BusSystem {
        base: System {
            width: UrangeBusDemoAir.width(),
            public: 0,
            rules: Arc::new(rules),
            fixed: None,
        },
        buses: Arc::new(buses),
    };
    assert!(round_trip(&system, &build_trace(8, &[0, 1, 42, 42, 255], 0), vec![]));
}

/// A small pinned trace of zeros: every range query asks for zero.
#[test]
fn pinned_composite_proof_verifies_in_a_batch() {
    let rows = 16usize;
    let mut values = vec![0u64; rows * TOTAL_TRACE_WIDTH];
    for r in 0..rows {
        values[r * TOTAL_TRACE_WIDTH + STARK_ROW_IDX] = r as u64;
    }
    values[URANGE13_FREQ] = 6 * rows as u64;
    values[IRANGE7P1_FREQ] = 128 * rows as u64;
    values[IRANGE8_FREQ] = 64 * rows as u64;
    let trace = RowMajorMatrix { values, width: TOTAL_TRACE_WIDTH };
    let program = extract_program(&trace);
    let fixed = Some(dense(&program));
    let air = CompositeFullAirWithLookupsPinned::new(program);
    let mut rules = ConstraintBuilder::new();
    let mut buses = Buses::new();
    air.eval(&mut rules, &mut buses, ConstraintBuilder::new());
    let public = CompositePublicInputs::derive_from_matrix(&trace).to_vec();
    let system = BusSystem {
        base: System { width: air.width(), public: public.len(), rules: Arc::new(rules), fixed },
        buses: Arc::new(buses),
    };
    assert!(round_trip(&system, &trace, public.into_iter().map(Goldilocks::new).collect()));
}
