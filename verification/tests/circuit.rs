use ai_pow_zk::circuit::{
    admissible_fri_profiles, CircuitConfig, FriProfileSearch, FriSoundnessError,
    FriSoundnessProfile, Tip5Perm, FRI_SOUNDNESS_MODEL, PLONKY3_SOUNDNESS_REV,
    PROD_FRI_OPERATIONAL_FLOOR_BITS,
};
use ai_pow_zk::composite_layout::MIN_STARK_LEN;

#[test]
fn circuit_config_constants_are_well_formed() {
    let prod = CircuitConfig::prod();
    assert_eq!(prod.log_blowup, 4);
    assert_eq!(prod.num_queries, 15);
    assert_eq!(prod.pow_bits, 0);
    let operational_bits = prod.operational_fri_bits();
    assert_eq!(operational_bits, PROD_FRI_OPERATIONAL_FLOOR_BITS);
    assert!(
        operational_bits >= PROD_FRI_OPERATIONAL_FLOOR_BITS,
        "PROD must meet the 60-bit operational FRI floor"
    );
    let test = CircuitConfig::test();
    assert!(test.log_blowup >= 1);
    assert!(test.num_queries >= 1);
    assert_eq!(test.pow_bits, 0);
}

#[test]
fn prod_sweep_profiles_meet_operational_fri_floor() {
    for (name, cfg) in [
        ("PROD", CircuitConfig::prod()),
        ("PROD_LB2", CircuitConfig::prod_lb2()),
        ("PROD_LB4", CircuitConfig::prod_lb4()),
        ("PROD_LB5", CircuitConfig::prod_lb5()),
        ("PROD_LB6", CircuitConfig::prod_lb6()),
    ] {
        let bits = cfg.operational_fri_bits();
        assert!(
            bits >= PROD_FRI_OPERATIONAL_FLOOR_BITS,
            "{name}: operational_bits = lb*nq + pow = {}*{} + {} = {} < {}",
            cfg.log_blowup,
            cfg.num_queries,
            cfg.pow_bits,
            bits,
            PROD_FRI_OPERATIONAL_FLOOR_BITS
        );
    }
}

#[test]
fn fri_soundness_calculator_accepts_prod_and_rejects_underbounds() {
    assert_eq!(
        PLONKY3_SOUNDNESS_REV,
        "11cc5849a1b57a2f520d6edc608b9e516517d841"
    );
    assert_eq!(
        FRI_SOUNDNESS_MODEL,
        "operational random-words FRI query model; Plonky3 v0.6.2 verifier semantics"
    );

    let prod = FriSoundnessProfile::from_circuit_config(
        CircuitConfig::prod(),
        3,
        MIN_STARK_LEN,
    );
    assert_eq!(prod.operational_bits(), PROD_FRI_OPERATIONAL_FLOOR_BITS);
    assert_eq!(prod.validate(PROD_FRI_OPERATIONAL_FLOOR_BITS), Ok(()));

    let bad_degree = FriSoundnessProfile {
        log_blowup: 1,
        ..prod
    };
    assert_eq!(
        bad_degree.validate(PROD_FRI_OPERATIONAL_FLOOR_BITS),
        Err(FriSoundnessError::DegreeExceedsBlowup {
            constraint_degree: 3,
            log_blowup: 1
        })
    );

    let short_trace = FriSoundnessProfile {
        log_final_poly_len: 2,
        log_trace_height: 5,
        ..prod
    };
    assert_eq!(
        short_trace.validate(PROD_FRI_OPERATIONAL_FLOOR_BITS),
        Err(FriSoundnessError::TraceTooShort {
            log_trace_height: 5,
            log_final_poly_len: 2,
            log_blowup: 4
        })
    );

    let low_queries = FriSoundnessProfile {
        num_queries: 14,
        ..prod
    };
    assert_eq!(
        low_queries.validate(PROD_FRI_OPERATIONAL_FLOOR_BITS),
        Err(FriSoundnessError::OperationalFloor {
            bits: 56,
            floor: PROD_FRI_OPERATIONAL_FLOOR_BITS
        })
    );

    let commit_pow_does_not_count = FriSoundnessProfile {
        num_queries: 13,
        commit_pow_bits: 4,
        query_pow_bits: 4,
        ..prod
    };
    assert_eq!(commit_pow_does_not_count.operational_bits(), 56);
    assert_eq!(
        commit_pow_does_not_count.validate(PROD_FRI_OPERATIONAL_FLOOR_BITS),
        Err(FriSoundnessError::OperationalFloor {
            bits: 56,
            floor: PROD_FRI_OPERATIONAL_FLOOR_BITS
        })
    );
}

#[test]
fn fri_soundness_search_generates_only_admissible_candidates() {
    let candidates = admissible_fri_profiles(FriProfileSearch {
        log_blowup: 1..=4,
        log_final_poly_len: 0..=2,
        max_log_arity: 1..=3,
        num_queries: 1..=30,
        cap_height: 0..=4,
        constraint_degree: 3,
        log_trace_height: 13,
        floor_bits: PROD_FRI_OPERATIONAL_FLOOR_BITS,
    });
    assert!(candidates
        .iter()
        .all(|profile| profile.validate(PROD_FRI_OPERATIONAL_FLOOR_BITS).is_ok()));
    assert!(candidates.iter().any(|profile| {
        profile.log_blowup == 2
            && profile.num_queries == 30
            && profile.log_final_poly_len == 0
            && profile.max_log_arity == 1
    }));
    assert!(!candidates.iter().any(|profile| profile.log_blowup == 1));
}

fn profile() -> FriSoundnessProfile {
    FriSoundnessProfile::from_circuit_config(CircuitConfig::prod(), 3, MIN_STARK_LEN)
}

#[test]
fn zero_fields_are_named() {
    let base = profile();
    let cases = [
        (FriSoundnessProfile { log_blowup: 0, max_log_arity: 0, ..base }, "log_blowup"),
        (FriSoundnessProfile { max_log_arity: 0, num_queries: 0, ..base }, "max_log_arity"),
        (FriSoundnessProfile { num_queries: 0, ..base }, "num_queries"),
        (FriSoundnessProfile { constraint_degree: 0, ..base }, "constraint_degree"),
        (FriSoundnessProfile { log_trace_height: 0, ..base }, "log_trace_height"),
    ];
    for (p, name) in cases {
        assert_eq!(p.validate(0), Err(FriSoundnessError::ZeroField(name)));
    }
}

#[test]
fn cap_and_arity_are_bounded() {
    let base = profile();
    assert_eq!(base.log_trace_height, 13);
    assert_eq!(FriSoundnessProfile { cap_height: 17, ..base }.validate(60), Ok(()));
    assert_eq!(
        FriSoundnessProfile { cap_height: 18, ..base }.validate(60),
        Err(FriSoundnessError::CapHeightTooLarge { cap_height: 18, log_commitment_height: 17 })
    );
    let p = FriSoundnessProfile { log_final_poly_len: 2, max_log_arity: 15, ..base };
    assert_eq!(p.validate(60), Ok(()));
    assert_eq!(
        FriSoundnessProfile { max_log_arity: 16, ..p }.validate(60),
        Err(FriSoundnessError::FoldArityTooLarge { max_log_arity: 16, remaining_log_domain: 15 })
    );
}

#[test]
fn trace_length_rounds_up() {
    for (len, log) in [(0usize, 0u32), (1, 0), (2, 1), (3, 2), (4096, 12), (4097, 13)] {
        let p = FriSoundnessProfile::from_circuit_config(CircuitConfig::test(), 1, len);
        assert_eq!(p.log_trace_height, log);
        assert_eq!(p.constraint_degree, 1);
        assert_eq!(p.num_queries, 8);
    }
}

#[test]
fn adaptive_profile_switches_at_fifteen() {
    for bits in [0usize, 13, 14] {
        let c = CircuitConfig::prod_adaptive(bits);
        assert_eq!((c.log_blowup, c.pow_bits, c.num_queries), (4, 0, 15));
        assert_eq!(c.operational_fri_bits(), PROD_FRI_OPERATIONAL_FLOOR_BITS);
    }
    for bits in [15usize, 19, 63] {
        let c = CircuitConfig::prod_adaptive(bits);
        assert_eq!((c.log_blowup, c.pow_bits, c.num_queries), (2, 0, 30));
        assert_eq!(c.operational_fri_bits(), PROD_FRI_OPERATIONAL_FLOOR_BITS);
    }
    assert_eq!(CircuitConfig::for_layer0_trace(1 << 14).log_blowup, 4);
    assert_eq!(CircuitConfig::for_layer0_trace(1 << 15).log_blowup, 2);
    assert_eq!(CircuitConfig::for_layer0_trace((1 << 14) + 1).log_blowup, 2);
}

#[test]
fn search_is_ordered_and_complete() {
    let found = admissible_fri_profiles(FriProfileSearch {
        log_blowup: 2..=3,
        log_final_poly_len: 0..=0,
        max_log_arity: 1..=1,
        num_queries: 29..=31,
        cap_height: 0..=1,
        constraint_degree: 4,
        log_trace_height: 13,
        floor_bits: 60,
    });
    let keys: Vec<(u32, u32, u32)> =
        found.iter().map(|p| (p.log_blowup, p.num_queries, p.cap_height)).collect();
    let want = vec![
        (2, 30, 0),
        (2, 30, 1),
        (2, 31, 0),
        (2, 31, 1),
        (3, 29, 0),
        (3, 29, 1),
        (3, 30, 0),
        (3, 30, 1),
        (3, 31, 0),
        (3, 31, 1),
    ];
    assert_eq!(keys, want);
}

#[test]
fn empty_range_gives_no_profiles() {
    let found = admissible_fri_profiles(FriProfileSearch {
        log_blowup: 4..=4,
        log_final_poly_len: 0..=0,
        max_log_arity: 1..=1,
        num_queries: 31..=30,
        cap_height: 0..=1,
        constraint_degree: 4,
        log_trace_height: 13,
        floor_bits: 60,
    });
    assert!(found.is_empty());
}

#[test]
fn settings_and_permutation_constants() {
    let s = CircuitConfig::test_pearl().fri_settings();
    assert_eq!((s.log_blowup, s.num_queries), (2, 16));
    assert_eq!((s.log_final_poly_len, s.max_log_arity), (0, 1));
    assert_eq!((s.commit_proof_of_work_bits, s.query_proof_of_work_bits), (0, 0));
    assert_eq!(Tip5Perm::WIDTH, Tip5Perm::RATE + Tip5Perm::CAPACITY);
    assert_eq!((Tip5Perm::WIDTH, Tip5Perm::RATE, Tip5Perm::NUM_ROUNDS), (16, 10, 5));
}
