use ai_pow_zk::air::{ConstraintBuilder, Expr, Rows};
use ai_pow_zk::bus::InteractionBuilder;
use ai_pow_zk::composite_full_air::{
    extract_program, program_cols, CompositeFullAir, CompositeFullAirPinned, ProgramShapeError,
};
use ai_pow_zk::composite_full_air_with_lookups::CompositeFullAirWithLookupsPinned;
use ai_pow_zk::composite_layout::{
    BLAKE3_MSG_START, CONTROL_PREP, CUMSUM_TILE_START, CV_IN_START, CV_OUT_START, IS_HASH_A,
    IS_HASH_B, IS_HASH_JACKPOT, IS_JOB_KEYED, IS_MSG_MAT, IS_NEW_BLAKE, IS_USE_COMMITMENT_HASH,
    IS_USE_JOB_KEY, JACKPOT_MSG_START, JACKPOT_SLOT_SEL_START, MAT_UNPACK_START, MIN_STARK_LEN,
    MSG_PAIR_SEL_START, NOISED_PACKED_START, STARK_ROW_IDX, TOTAL_TRACE_WIDTH, UINT8_DATA_START,
};
use ai_pow_zk::composite_proof::{pow_verdict, CompositeVerificationError, PowVerifyError};
use ai_pow_zk::composite_public::CompositePublicInputs;
use ai_pow_zk::matrix::RowMajorMatrix;
use p3_field::integers::QuotientMap;
use p3_field::PrimeField64;
use p3_goldilocks::Goldilocks;

/// The field element of an integer.
fn val(x: i64) -> u64 {
    <Goldilocks as QuotientMap<i64>>::from_int(x).as_canonical_u64()
}

fn at(r: usize, c: usize) -> usize {
    r * TOTAL_TRACE_WIDTH + c
}

/// A trace of zeros with counted rows.
fn baseline(rows: usize) -> RowMajorMatrix {
    let mut values = vec![0u64; rows * TOTAL_TRACE_WIDTH];
    for r in 0..rows {
        values[at(r, STARK_ROW_IDX)] = r as u64;
    }
    RowMajorMatrix { values, width: TOTAL_TRACE_WIDTH }
}

/// A trace with the digests of both matrices, both keys, a row keyed by the
/// job, and a last row that hashes the jackpot state under the commitment.
fn honest_trace() -> RowMajorMatrix {
    let mut trace = baseline(64);
    for (r, selector) in [(4usize, IS_HASH_A), (5, IS_HASH_B)] {
        trace.values[at(r, selector)] = 1;
        trace.values[at(r, CONTROL_PREP)] = 1 + r as u64;
        for i in 0..8 {
            trace.values[at(r, CV_OUT_START + i)] = (r * 1000 + i) as u64;
        }
    }
    for r in [3usize, 6] {
        let selector = if r == 3 { IS_JOB_KEYED } else { IS_USE_JOB_KEY };
        trace.values[at(r, selector)] = 1;
        for i in 0..8 {
            trace.values[at(r, CV_IN_START + i)] = 0xA5A5_A5A5;
        }
    }
    trace.values[at(7, IS_USE_COMMITMENT_HASH)] = 1;
    for i in 0..8 {
        trace.values[at(7, CV_IN_START + i)] = 0x5EED_0000 + i as u64;
    }
    trace.values[at(63, CONTROL_PREP)] = 1 << 9;
    trace.values[at(63, IS_HASH_JACKPOT)] = 1;
    trace.values[at(63, JACKPOT_SLOT_SEL_START + 1)] = 1;
    for i in 0..8 {
        trace.values[at(63, CV_OUT_START + i)] = 0xAB00 + i as u64;
        trace.values[at(63, CV_IN_START + i)] = 0x5EED_0000 + i as u64;
    }
    trace
}

/// A polynomial's value.
fn value(e: &Expr, cur: &[u64], nxt: &[u64], fixed: &[u64], public: &[u64]) -> Goldilocks {
    let side = |e: &Expr| value(e, cur, nxt, fixed, public);
    match e {
        Expr::Const(c) => Goldilocks::new(*c),
        Expr::Cur(i) => Goldilocks::new(cur[*i]),
        Expr::Next(i) => Goldilocks::new(nxt[*i]),
        Expr::Fixed(i) => Goldilocks::new(fixed[*i]),
        Expr::Public(i) => Goldilocks::new(public[*i]),
        Expr::Add(a, b) => side(a) + side(b),
        Expr::Sub(a, b) => side(a) - side(b),
        Expr::Mul(a, b) => side(a) * side(b),
    }
}

/// Whether a trace meets every constraint on every row.
fn meets(
    rules: &ConstraintBuilder,
    trace: &RowMajorMatrix,
    program: Option<&RowMajorMatrix>,
    pis: &CompositePublicInputs,
) -> bool {
    let public = pis.to_vec();
    let h = trace.values.len() / TOTAL_TRACE_WIDTH;
    (0..h).all(|r| {
        let cur = &trace.values[at(r, 0)..at(r + 1, 0)];
        let below = (r + 1) % h;
        let nxt = &trace.values[at(below, 0)..at(below + 1, 0)];
        let fixed = program.map_or(&[][..], |p| &p.values[r * p.width..(r + 1) * p.width]);
        rules.constraints.iter().all(|c| {
            let applies = match c.rows {
                Rows::All => true,
                Rows::First => r == 0,
                Rows::Last => r + 1 == h,
                Rows::Transition => r + 1 != h,
            };
            !applies || value(&c.expr, cur, nxt, fixed, &public) == Goldilocks::new(0)
        })
    })
}

/// The verdict on a trace without a fixed program.
fn verify(
    trace: &RowMajorMatrix,
    pis: &CompositePublicInputs,
) -> Result<(), CompositeVerificationError> {
    let mut rules = ConstraintBuilder::new();
    CompositeFullAir.eval(&mut rules, ConstraintBuilder::new());
    if meets(&rules, trace, None, pis) {
        Ok(())
    } else {
        Err(CompositeVerificationError::Stark(String::from("constraints not met")))
    }
}

/// The verdict on a trace under a fixed program.
fn verify_pinned(
    program: &RowMajorMatrix,
    trace: &RowMajorMatrix,
    pis: &CompositePublicInputs,
) -> Result<(), CompositeVerificationError> {
    let air = CompositeFullAirPinned::try_new(program.clone())
        .map_err(CompositeVerificationError::InvalidProgram)?;
    let mut rules = ConstraintBuilder::new();
    air.eval(&mut rules, ConstraintBuilder::new());
    if meets(&rules, trace, Some(program), pis) {
        Ok(())
    } else {
        Err(CompositeVerificationError::Stark(String::from("constraints not met")))
    }
}

/// The verdict on a trace under a fixed program, by the system with lookups.
fn verify_pinned_logup(
    program: &RowMajorMatrix,
    trace: &RowMajorMatrix,
    pis: &CompositePublicInputs,
) -> Result<(), CompositeVerificationError> {
    let air = CompositeFullAirWithLookupsPinned::try_new_with(program.clone(), true)
        .map_err(CompositeVerificationError::InvalidProgram)?;
    let mut rules = ConstraintBuilder::new();
    let mut buses = InteractionBuilder::new();
    air.eval(&mut rules, &mut buses, ConstraintBuilder::new());
    if meets(&rules, trace, Some(program), pis) {
        Ok(())
    } else {
        Err(CompositeVerificationError::Stark(String::from("constraints not met")))
    }
}

fn derive(trace: &RowMajorMatrix) -> CompositePublicInputs {
    CompositePublicInputs::derive_from_matrix(trace)
}

/// Gives every row the same accumulator and jackpot state.
fn thread_state(trace: &mut RowMajorMatrix, cumsum: &[i32; 4], jackpot: &[u32; 16]) {
    for r in 0..trace.values.len() / TOTAL_TRACE_WIDTH {
        for i in 0..4 {
            trace.values[at(r, CUMSUM_TILE_START + i)] = val(cumsum[i] as i64);
        }
        for i in 0..16 {
            trace.values[at(r, JACKPOT_MSG_START + i)] = jackpot[i] as u64;
        }
    }
}

#[test]
fn composite_prove_verify_round_trip() {
    let trace = baseline(64);
    assert!(verify(&trace, &derive(&trace)).is_ok());
}

#[test]
fn composite_full_air_min_stark_len_anchor() {
    let trace = baseline(MIN_STARK_LEN);
    assert_eq!(trace.values.len(), MIN_STARK_LEN * TOTAL_TRACE_WIDTH, "trace dimensions");
    assert_eq!(MIN_STARK_LEN, 8192);
    let program = extract_program(&trace);
    assert!(CompositeFullAirPinned::try_new(program).is_ok());
}

#[test]
fn composite_proofs_at_two_trace_sizes() {
    for rows in [32usize, 64] {
        let trace = baseline(rows);
        assert!(verify(&trace, &derive(&trace)).is_ok(), "{rows} rows");
    }
}

#[test]
fn verify_rejects_wrong_cumsum_pi() {
    let trace = baseline(64);
    let mut bad = derive(&trace);
    bad.cumsum[0] = 42;
    assert!(verify(&trace, &bad).is_err(), "wrong accumulator must reject");
}

#[test]
fn verify_rejects_wrong_jackpot_pi() {
    let trace = baseline(64);
    let mut bad = derive(&trace);
    bad.jackpot[5] = 0xDEAD_BEEF;
    assert!(verify(&trace, &bad).is_err(), "wrong jackpot state must reject");
}

#[test]
fn prove_verify_with_threaded_state() {
    let mut trace = baseline(64);
    let jackpot: [u32; 16] = core::array::from_fn(|i| (i as u32 + 1) * 0x12345);
    thread_state(&mut trace, &[1, -2, 3, -4], &jackpot);
    let pis = derive(&trace);
    assert_eq!(pis.cumsum, [1, -2, 3, -4]);
    assert_eq!(pis.jackpot, jackpot);
    assert!(verify(&trace, &pis).is_ok(), "threaded state must verify");
}

#[test]
fn verify_rejects_pi_substitution_across_proofs() {
    let trace_a = baseline(64);
    let mut trace_b = baseline(64);
    thread_state(&mut trace_b, &[1, 1, 1, 1], &[0; 16]);
    let pis_b = derive(&trace_b);
    assert!(verify(&trace_b, &pis_b).is_ok());
    assert!(verify(&trace_a, &pis_b).is_err(), "the other trace's inputs must reject");
}

#[test]
fn crit1_honest_pinned_roundtrip() {
    let trace = honest_trace();
    let program = extract_program(&trace);
    let pis = derive(&trace);
    assert_ne!(pis.hash_jackpot, [0u32; 8]);
    let pow = |target: &[u8; 32]| {
        pow_verdict(verify_pinned(&program, &trace, &pis), &pis.hash_jackpot, target)
    };
    assert!(pow(&[0xFF; 32]).is_ok(), "clears an easy target");
    assert!(matches!(pow(&[0; 32]), Err(PowVerifyError::DifficultyNotMet)));
}

#[test]
fn crit1_zeroed_selector_forgery_rejected() {
    let canonical = extract_program(&honest_trace());
    let evil = baseline(64);
    let forged = CompositePublicInputs::zero();
    let own = extract_program(&evil);
    assert_ne!(own.values, canonical.values);
    assert!(verify_pinned(&own, &evil, &forged).is_ok(), "holds under its own program");
    let stark = verify_pinned(&canonical, &evil, &forged);
    assert!(stark.is_err(), "must fail under the canonical program");
    assert!(pow_verdict(stark, &forged.hash_jackpot, &[0xFF; 32]).is_err());
}

#[test]
fn crit1_tampered_program_col_rejected() {
    let canonical = extract_program(&honest_trace());
    for col in program_cols() {
        let mut trace = honest_trace();
        trace.values[at(50, col)] += 1;
        let pis = derive(&trace);
        assert!(verify_pinned(&canonical, &trace, &pis).is_err(), "program column {col}");
    }
}

#[test]
fn crit1_forged_hash_jackpot_with_canonical_program_rejected() {
    let trace = honest_trace();
    let program = extract_program(&trace);
    let mut pis = derive(&trace);
    pis.hash_jackpot = [0; 8];
    assert!(verify_pinned(&program, &trace, &pis).is_err(), "forged digest must reject");
}

#[test]
fn high2_free_jackpot_message_rejected() {
    let honest = honest_trace();
    let program = extract_program(&honest);
    assert!(verify_pinned(&program, &honest, &derive(&honest)).is_ok());
    let mut evil = honest_trace();
    evil.values[at(63, JACKPOT_MSG_START)] = 0xDEAD_BEEF;
    assert!(verify_pinned(&program, &evil, &derive(&evil)).is_err(), "free state must reject");
}

#[test]
fn routea_hash_jackpot_public_input_tamper_rejects() {
    let trace = honest_trace();
    let program = extract_program(&trace);
    let mut pis = derive(&trace);
    assert!(verify_pinned_logup(&program, &trace, &pis).is_ok());
    pis.hash_jackpot[0] ^= 1;
    assert!(verify_pinned_logup(&program, &trace, &pis).is_err());
}

#[test]
fn routea_final_boundary_public_inputs_tamper_rejects() {
    let trace = honest_trace();
    let program = extract_program(&trace);
    for lane in 0..4 {
        let mut pis = derive(&trace);
        pis.cumsum[lane] ^= 1;
        assert!(verify_pinned_logup(&program, &trace, &pis).is_err(), "accumulator {lane}");
    }
    for lane in 0..16 {
        let mut pis = derive(&trace);
        pis.jackpot[lane] ^= 1;
        assert!(verify_pinned_logup(&program, &trace, &pis).is_err(), "jackpot {lane}");
    }
}

#[test]
fn routea_malformed_program_returns_error_not_panic() {
    let trace = honest_trace();
    let pis = derive(&trace);
    let width = program_cols().len();
    let bad_width = RowMajorMatrix { values: vec![0; 8], width: 1 };
    assert!(matches!(
        verify_pinned_logup(&bad_width, &trace, &pis),
        Err(CompositeVerificationError::InvalidProgram(
            ProgramShapeError::WidthMismatch { expected, actual: 1 }
        )) if expected == width
    ));
    let bad_height = RowMajorMatrix { values: vec![0; width * 3], width };
    let stark = verify_pinned_logup(&bad_height, &trace, &pis);
    assert!(matches!(
        pow_verdict(stark, &pis.hash_jackpot, &[0xFF; 32]),
        Err(PowVerifyError::Stark(CompositeVerificationError::InvalidProgram(
            ProgramShapeError::HeightNotPowerOfTwo { height: 3 }
        )))
    ));
}

#[test]
fn routea_crit1_zeroed_selector_forgery_rejected() {
    let canonical = extract_program(&honest_trace());
    let evil = baseline(64);
    let forged = CompositePublicInputs::zero();
    let own = extract_program(&evil);
    assert!(verify_pinned_logup(&own, &evil, &forged).is_ok());
    let stark = verify_pinned_logup(&canonical, &evil, &forged);
    assert!(stark.is_err());
    assert!(pow_verdict(stark, &forged.hash_jackpot, &[0xFF; 32]).is_err());
}

#[test]
fn routea_crit1_tampered_program_col_rejected() {
    let canonical = extract_program(&honest_trace());
    for col in program_cols() {
        let mut trace = honest_trace();
        trace.values[at(50, col)] += 1;
        let pis = derive(&trace);
        assert!(verify_pinned_logup(&canonical, &trace, &pis).is_err(), "program column {col}");
    }
}

#[test]
fn routea_high2_free_jackpot_message_rejected() {
    let honest = honest_trace();
    let program = extract_program(&honest);
    assert!(verify_pinned_logup(&program, &honest, &derive(&honest)).is_ok());
    let mut evil = honest_trace();
    evil.values[at(63, JACKPOT_MSG_START)] = 0xDEAD_BEEF;
    assert!(verify_pinned_logup(&program, &evil, &derive(&evil)).is_err());
}

/// The jackpot digest is keyed by the public commitment.
#[test]
fn routea_jackpot_hash_uses_public_commitment_key() {
    let mut trace = honest_trace();
    let program = extract_program(&trace);
    let pis = derive(&trace);
    assert_eq!(pis.commitment_hash[0], 0x5EED_0000);
    trace.values[at(63, CV_IN_START)] ^= 1;
    assert!(verify_pinned_logup(&program, &trace, &pis).is_err());
}

#[test]
fn routea_honest_roundtrip_and_pow() {
    let trace = honest_trace();
    let program = extract_program(&trace);
    let pis = derive(&trace);
    assert_ne!(pis.hash_jackpot, [0u32; 8]);
    let pow = |target: &[u8; 32]| {
        pow_verdict(verify_pinned_logup(&program, &trace, &pis), &pis.hash_jackpot, target)
    };
    assert!(pow(&[0xFF; 32]).is_ok(), "clears an easy target");
    assert!(matches!(pow(&[0; 32]), Err(PowVerifyError::DifficultyNotMet)));
}

#[test]
fn routea_matrix_hash_public_inputs_tamper_rejects() {
    let trace = honest_trace();
    let program = extract_program(&trace);
    let mut pis = derive(&trace);
    assert_eq!(pis.hash_a[1], 4001);
    pis.hash_a[0] ^= 1;
    assert!(verify_pinned_logup(&program, &trace, &pis).is_err(), "left digest");
    let mut pis = derive(&trace);
    assert_eq!(pis.hash_b[1], 5001);
    pis.hash_b[0] ^= 1;
    assert!(verify_pinned_logup(&program, &trace, &pis).is_err(), "right digest");
}

#[test]
fn routea_c1_public_inputs_tamper_rejects() {
    let trace = honest_trace();
    let program = extract_program(&trace);
    let mut pis = derive(&trace);
    assert_ne!(pis.job_key, [0u32; 8]);
    pis.job_key[0] ^= 1;
    assert!(verify_pinned_logup(&program, &trace, &pis).is_err(), "job key");
    let mut pis = derive(&trace);
    assert_ne!(pis.commitment_hash, [0u32; 8]);
    pis.commitment_hash[0] ^= 1;
    assert!(verify_pinned_logup(&program, &trace, &pis).is_err(), "commitment");
}

/// A row keyed by something other than the job key rejects.
#[test]
fn routea_matrix_commitment_keyed_by_job_key() {
    let honest = honest_trace();
    let program = extract_program(&honest);
    assert!(verify_pinned_logup(&program, &honest, &derive(&honest)).is_ok());
    let mut evil = honest_trace();
    for i in 0..8 {
        evil.values[at(3, CV_IN_START + i)] = 0x1111_1111;
    }
    let pis = derive(&evil);
    assert_eq!(pis.job_key, [0xA5A5_A5A5; 8]);
    assert!(verify_pinned_logup(&program, &evil, &pis).is_err());
    assert!(verify_pinned(&program, &evil, &pis).is_err());
}

/// The message words of a matrix row are its bytes.
#[test]
fn routea_c3_colocated_matrix_row_tamper_rejects() {
    let pack = |bytes: &[u64]| bytes.iter().rev().fold(0u64, |acc, b| acc * 256 + b);
    let mut trace = honest_trace();
    trace.values[at(20, IS_MSG_MAT)] = 1;
    trace.values[at(20, IS_NEW_BLAKE)] = 1;
    trace.values[at(20, MSG_PAIR_SEL_START)] = 1;
    let bytes: Vec<u64> = (0..64).collect();
    for i in 0..64 {
        trace.values[at(20, MAT_UNPACK_START + i)] = bytes[i];
        trace.values[at(20, UINT8_DATA_START + i)] = bytes[i];
    }
    for i in 0..16 {
        trace.values[at(20, NOISED_PACKED_START + i)] = pack(&bytes[4 * i..4 * i + 4]);
        trace.values[at(20, BLAKE3_MSG_START + i)] = pack(&bytes[4 * i..4 * i + 4]);
    }
    let program = extract_program(&trace);
    let pis = derive(&trace);
    assert!(verify_pinned_logup(&program, &trace, &pis).is_ok());
    trace.values[at(20, MAT_UNPACK_START)] = 9;
    trace.values[at(20, UINT8_DATA_START)] = 9;
    trace.values[at(20, NOISED_PACKED_START)] = 9 + 256 + 2 * 256 * 256 + 3 * 256 * 256 * 256;
    assert!(verify_pinned_logup(&program, &trace, &pis).is_err());
}
