use ai_pow_zk::composite_layout::{
    CUMSUM_TILE_START, CV_IN_START, CV_OUT_LEN, CV_OUT_START, IS_HASH_A, IS_HASH_JACKPOT,
    IS_USE_COMMITMENT_HASH, IS_USE_JOB_KEY, JACKPOT_MSG_START, JACKPOT_SIZE, STARK_ROW_IDX,
    TOTAL_TRACE_WIDTH,
};
use ai_pow_zk::composite_public::{
    goldilocks_to_i32, CompositePublicInputs, NUM_PUBLIC_VALUES, PI_COMMITMENT_HASH_OFFSET,
    PI_CUMSUM_LEN, PI_CUMSUM_OFFSET, PI_HASH_A_LEN, PI_HASH_A_OFFSET, PI_HASH_B_LEN,
    PI_HASH_B_OFFSET, PI_HASH_JACKPOT_LEN, PI_HASH_JACKPOT_OFFSET, PI_JACKPOT_LEN,
    PI_JACKPOT_OFFSET, PI_JOB_KEY_OFFSET,
};
use ai_pow_zk::composite_trace::CompositeTrace;
use ai_pow_zk::matrix::RowMajorMatrix;

/// A trace of zeros with counted rows.
fn baseline_min() -> CompositeTrace {
    let rows = 16;
    let mut values = vec![0u64; rows * TOTAL_TRACE_WIDTH];
    for r in 0..rows {
        values[r * TOTAL_TRACE_WIDTH + STARK_ROW_IDX] = r as u64;
    }
    CompositeTrace { matrix: RowMajorMatrix { values, width: TOTAL_TRACE_WIDTH } }
}

/// Carries an accumulator through every row.
fn fill_cumsum_passthrough(trace: &mut CompositeTrace, cumsum: &[i32; 4]) {
    let encoded = CompositePublicInputs { cumsum: *cumsum, ..CompositePublicInputs::zero() }.to_vec();
    for row in trace.matrix.values.chunks_mut(TOTAL_TRACE_WIDTH) {
        row[CUMSUM_TILE_START..CUMSUM_TILE_START + 4].copy_from_slice(&encoded[0..4]);
    }
}

/// Carries a jackpot state through every row.
fn fill_jackpot_passthrough(trace: &mut CompositeTrace, jackpot: &[u32; JACKPOT_SIZE]) {
    for row in trace.matrix.values.chunks_mut(TOTAL_TRACE_WIDTH) {
        for i in 0..JACKPOT_SIZE {
            row[JACKPOT_MSG_START + i] = jackpot[i] as u64;
        }
    }
}

#[test]
fn zero_round_trips() {
    let pis = CompositePublicInputs::zero();
    let v = pis.to_vec();
    assert_eq!(v.len(), NUM_PUBLIC_VALUES);
    for x in v {
        assert_eq!(x, 0);
    }
}

#[test]
fn derive_from_baseline_trace_is_zero() {
    let trace = baseline_min();
    let pis = CompositePublicInputs::derive_from_trace(&trace);
    assert_eq!(pis, CompositePublicInputs::zero());
}

#[test]
fn derive_picks_up_threaded_cumsum() {
    let mut trace = baseline_min();
    let cumsum = [1, -2, 3, -4];
    fill_cumsum_passthrough(&mut trace, &cumsum);
    let pis = CompositePublicInputs::derive_from_trace(&trace);
    assert_eq!(pis.cumsum, cumsum);
    assert_eq!(pis.jackpot, [0u32; JACKPOT_SIZE]);
}

#[test]
fn derive_picks_up_threaded_jackpot() {
    let mut trace = baseline_min();
    let jp: [u32; JACKPOT_SIZE] = core::array::from_fn(|i| (i as u32 + 1) * 0xCAFE);
    fill_jackpot_passthrough(&mut trace, &jp);
    let pis = CompositePublicInputs::derive_from_trace(&trace);
    assert_eq!(pis.cumsum, [0; 4]);
    assert_eq!(pis.jackpot, jp);
}

#[test]
fn to_vec_layout_is_stable() {
    let pis = CompositePublicInputs {
        cumsum: [10, 20, 30, 40],
        jackpot: core::array::from_fn(|i| 100 + i as u32),
        ..CompositePublicInputs::zero()
    };
    let v = pis.to_vec();
    for i in 0..PI_CUMSUM_LEN {
        assert_eq!(
            v[PI_CUMSUM_OFFSET + i],
            pis.cumsum[i] as u64
        );
    }
    for i in 0..PI_JACKPOT_LEN {
        assert_eq!(
            v[PI_JACKPOT_OFFSET + i],
            pis.jackpot[i] as u64
        );
    }
}

#[test]
fn negative_cumsum_round_trips() {
    let pis = CompositePublicInputs {
        cumsum: [-1, -1000, i32::MIN, i32::MAX],
        ..CompositePublicInputs::zero()
    };
    let v = pis.to_vec();
    assert_eq!(v[0], 0xFFFF_FFFF_0000_0001u64 - 1);
    assert_eq!(goldilocks_to_i32(v[0]), -1);
    assert_eq!(goldilocks_to_i32(v[1]), -1000);
    assert_eq!(goldilocks_to_i32(v[2]), i32::MIN);
    assert_eq!(goldilocks_to_i32(v[3]), i32::MAX);
}

#[test]
fn num_public_values_includes_hash_slots() {
    assert_eq!(NUM_PUBLIC_VALUES, 60);
    assert_eq!(PI_HASH_A_OFFSET, 20);
    assert_eq!(PI_HASH_B_OFFSET, 28);
    assert_eq!(PI_JOB_KEY_OFFSET, 36);
    assert_eq!(PI_COMMITMENT_HASH_OFFSET, 44);
    assert_eq!(PI_HASH_JACKPOT_OFFSET, 52);
    assert_eq!(PI_HASH_A_LEN, 8);
    assert_eq!(PI_HASH_B_LEN, 8);
    assert_eq!(PI_HASH_JACKPOT_LEN, 8);
}

#[test]
fn hash_a_b_round_trip_via_to_vec() {
    let pis = CompositePublicInputs {
        hash_a: [
            0x01020304, 0x05060708, 0x090A0B0C, 0x0D0E0F10, 0xDEADBEEF, 0xFEEDFACE, 0xCAFEBABE,
            0x12345678,
        ],
        hash_b: [
            0x11111111, 0x22222222, 0x33333333, 0x44444444, 0x55555555, 0x66666666, 0x77777777,
            0x88888888,
        ],
        ..CompositePublicInputs::zero()
    };
    let v = pis.to_vec();
    for i in 0..PI_HASH_A_LEN {
        assert_eq!(
            v[PI_HASH_A_OFFSET + i],
            pis.hash_a[i] as u64,
            "hash_a[{i}]"
        );
        assert_eq!(
            v[PI_HASH_B_OFFSET + i],
            pis.hash_b[i] as u64,
            "hash_b[{i}]"
        );
    }
}

#[test]
fn derive_picks_up_hash_a_at_selector_row() {
    let trace = baseline_min();
    let n = trace.matrix.values.len() / TOTAL_TRACE_WIDTH;
    let mut planted = trace;
    let r = 3usize.min(n - 1);
    let base = r * TOTAL_TRACE_WIDTH;
    planted.matrix.values[base + IS_HASH_A] = 1;
    let expected: [u32; CV_OUT_LEN] = core::array::from_fn(|i| (i as u32 + 1) * 0x0F0F0F);
    for i in 0..CV_OUT_LEN {
        planted.matrix.values[base + CV_OUT_START + i] =
            expected[i] as u64;
    }
    let pis = CompositePublicInputs::derive_from_matrix(&planted.matrix);
    assert_eq!(pis.hash_a, expected);
    assert_eq!(pis.hash_b, [0; PI_HASH_B_LEN], "no IS_HASH_B set");
}

#[test]
fn first_marked_row_wins() {
    let mut trace = baseline_min();
    for (r, word) in [(2usize, 7u64), (9, 8)] {
        let base = r * TOTAL_TRACE_WIDTH;
        trace.matrix.values[base + IS_USE_JOB_KEY] = 1;
        trace.matrix.values[base + CV_IN_START + 3] = word;
    }
    // A selector cell other than one does not mark a row.
    trace.matrix.values[TOTAL_TRACE_WIDTH + IS_USE_JOB_KEY] = 2;
    let pis = CompositePublicInputs::derive_from_trace(&trace);
    assert_eq!(pis.job_key, [0, 0, 0, 7, 0, 0, 0, 0]);
}

#[test]
fn commitment_falls_back_to_the_jackpot_key() {
    let mut trace = baseline_min();
    let base = 4 * TOTAL_TRACE_WIDTH;
    trace.matrix.values[base + IS_HASH_JACKPOT] = 1;
    trace.matrix.values[base + CV_IN_START] = 5;
    trace.matrix.values[base + CV_OUT_START] = 6;
    let pis = CompositePublicInputs::derive_from_trace(&trace);
    assert_eq!(pis.commitment_hash[0], 5);
    assert_eq!(pis.hash_jackpot[0], 6);
    let base = 5 * TOTAL_TRACE_WIDTH;
    trace.matrix.values[base + IS_USE_COMMITMENT_HASH] = 1;
    assert_eq!(CompositePublicInputs::derive_from_trace(&trace).commitment_hash[0], 5);
    trace.matrix.values[base + CV_IN_START + 1] = 9;
    let keyed = CompositePublicInputs::derive_from_trace(&trace).commitment_hash;
    assert_eq!(keyed, [0, 9, 0, 0, 0, 0, 0, 0]);
}

#[test]
fn default_is_zero() {
    assert_eq!(CompositePublicInputs::default(), CompositePublicInputs::zero());
    assert_eq!(CompositePublicInputs::default().to_vec(), vec![0u64; 60]);
}

#[test]
fn decoding_splits_at_half_the_modulus() {
    let p = 0xFFFF_FFFF_0000_0001u64;
    assert_eq!(goldilocks_to_i32(0), 0);
    assert_eq!(goldilocks_to_i32(p - 5), -5);
    assert_eq!(goldilocks_to_i32(0x7FFF_FFFF), i32::MAX);
    assert_eq!(goldilocks_to_i32(p - 0x8000_0000), i32::MIN);
    assert_eq!(goldilocks_to_i32(p / 2), (p / 2) as i32);
}
