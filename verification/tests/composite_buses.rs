use std::collections::HashMap;

use ai_pow_zk::air::{ConstraintBuilder, Expr, Rows};
use ai_pow_zk::bus::InteractionBuilder;
use ai_pow_zk::chips::jackpot::chip::JackpotChip;
use ai_pow_zk::chips::matmul::chip::MatmulCumsumChip;
use ai_pow_zk::composite_full_air_with_lookups::CompositeFullAirWithLookups;
use ai_pow_zk::composite_layout::{
    AB_ID_LIMBS_START, AB_ID_PREP, A_ID, A_NOISED_START, A_NOISED_UNPACK_START,
    B_NOISED_UNPACK_START, CV_IN_START, CV_OR_TWEAK_PREP, CV_OUT_FREQ, I8U8_FREQ, I8U8_TABLE, IRANGE7P1_FREQ, IRANGE7P1_TABLE,
    IRANGE8_FREQ, IRANGE8_TABLE, IS_CV_IN, IS_MSG_MAT, IS_RESET_CUMSUM, IS_UPDATE_CUMSUM,
    JACKPOT_SIZE, MAT_FREQ, MAT_ID, MAT_ID_LIMBS_START, MAT_UNPACK_START, MIN_STARK_LEN,
    NOISED_PACKED_START, NOISE_UNPACK_START, STARK_ROW_IDX, TILE_D, TILE_H, TOTAL_TRACE_WIDTH,
    UINT8_DATA_START, URANGE13_FREQ, URANGE13_TABLE, URANGE8_FREQ, URANGE8_TABLE,
};
use ai_pow_zk::composite_lookups::{
    BUS_CV_ROUTING, BUS_I8U8, BUS_IRANGE7P1, BUS_IRANGE8, BUS_NOISED_PACKED, BUS_URANGE13,
    BUS_URANGE8,
};
use ai_pow_zk::composite_public::CompositePublicInputs;
use ai_pow_zk::matrix::RowMajorMatrix;
use p3_field::integers::QuotientMap;
use p3_field::PrimeField64;
use p3_goldilocks::Goldilocks;

/// Identifiers below this one belong to padding rows.
const NOISED_CHUNK_ID_BASE: u64 = 8;

/// The field element of an integer.
fn val(x: i64) -> u64 {
    <Goldilocks as QuotientMap<i64>>::from_int(x).as_canonical_u64()
}

fn at(r: usize, c: usize) -> usize {
    r * TOTAL_TRACE_WIDTH + c
}

/// A trace of zeros with counted rows and filled tables.
fn baseline_min() -> RowMajorMatrix {
    let mut values = vec![0u64; MIN_STARK_LEN * TOTAL_TRACE_WIDTH];
    for r in 0..MIN_STARK_LEN {
        values[at(r, STARK_ROW_IDX)] = r as u64;
        values[at(r, URANGE8_TABLE)] = r.min(255) as u64;
        values[at(r, URANGE13_TABLE)] = r.min(8191) as u64;
        values[at(r, IRANGE7P1_TABLE)] = val(r.min(128) as i64 - 64);
        let signed = r.min(255) as i64 - 128;
        values[at(r, IRANGE8_TABLE)] = val(signed);
        values[at(r, I8U8_TABLE)] = val(signed * 256 + signed.rem_euclid(256));
    }
    RowMajorMatrix { values, width: TOTAL_TRACE_WIDTH }
}

/// The composite system with lookups, with no further components.
fn system() -> (ConstraintBuilder, InteractionBuilder) {
    let mut rules = ConstraintBuilder::new();
    let mut buses = InteractionBuilder::new();
    CompositeFullAirWithLookups.eval(&mut rules, &mut buses, ConstraintBuilder::new());
    (rules, buses)
}

/// A polynomial's value.
fn value(e: &Expr, cur: &[u64], nxt: &[u64], public: &[u64]) -> Goldilocks {
    match e {
        Expr::Const(c) => Goldilocks::new(*c),
        Expr::Cur(i) => Goldilocks::new(cur[*i]),
        Expr::Next(i) => Goldilocks::new(nxt[*i]),
        Expr::Public(i) => Goldilocks::new(public[*i]),
        Expr::Fixed(_) => unreachable!("the unpinned system has no fixed columns"),
        Expr::Add(a, b) => value(a, cur, nxt, public) + value(b, cur, nxt, public),
        Expr::Sub(a, b) => value(a, cur, nxt, public) - value(b, cur, nxt, public),
        Expr::Mul(a, b) => value(a, cur, nxt, public) * value(b, cur, nxt, public),
    }
}

/// What every row asks of every key: queries where `queries` is set, all
/// entries otherwise.
fn totals(
    buses: &InteractionBuilder,
    trace: &RowMajorMatrix,
    queries: bool,
) -> HashMap<(&'static str, Vec<u64>), Goldilocks> {
    let mut sums: HashMap<(&'static str, Vec<u64>), Goldilocks> = HashMap::new();
    for i in &buses.interactions {
        if queries && i.weight == 0 {
            continue;
        }
        // Runs of one key are added up before they are looked up.
        let mut run: (Vec<u64>, Goldilocks) = (Vec::new(), Goldilocks::new(0));
        for row in trace.values.chunks(TOTAL_TRACE_WIDTH) {
            let count = value(&i.count, row, &[], &[]);
            if count == Goldilocks::new(0) {
                continue;
            }
            let same = run.0.len() == i.key.len()
                && i.key
                    .iter()
                    .zip(&run.0)
                    .all(|(e, k)| value(e, row, &[], &[]).as_canonical_u64() == *k);
            if !same {
                *sums.entry((i.bus, run.0)).or_default() += run.1;
                let key = i.key.iter().map(|e| value(e, row, &[], &[]).as_canonical_u64());
                run = (key.collect(), Goldilocks::new(0));
            }
            run.1 += count;
        }
        *sums.entry((i.bus, run.0)).or_default() += run.1;
    }
    sums.retain(|(_, key), _| !key.is_empty());
    sums
}

/// Where a row's table entry counts its readers: the bus, the key's columns
/// and the column of the count.
fn tables(row: &[u64]) -> Vec<(&'static str, Vec<u64>, usize)> {
    let mut out = vec![
        (BUS_URANGE8, vec![row[URANGE8_TABLE]], URANGE8_FREQ),
        (BUS_URANGE13, vec![row[URANGE13_TABLE]], URANGE13_FREQ),
        (BUS_IRANGE7P1, vec![row[IRANGE7P1_TABLE]], IRANGE7P1_FREQ),
        (BUS_IRANGE8, vec![row[IRANGE8_TABLE]], IRANGE8_FREQ),
        (BUS_I8U8, vec![row[I8U8_TABLE]], I8U8_FREQ),
    ];
    let slots = if row[IS_MSG_MAT] == 1 { 8 } else { 1 };
    for k in 0..slots {
        let words = NOISED_PACKED_START + 2 * k;
        let key = vec![row[MAT_ID] + k as u64, row[words], row[words + 1]];
        out.push((BUS_NOISED_PACKED, key, MAT_FREQ + k));
    }
    out
}

/// Counts, for each table entry, how often it is read.
fn populate_lookup_freq(trace: &mut RowMajorMatrix) {
    let (_, buses) = system();
    let mut asked = totals(&buses, trace, true);
    for r in 0..MIN_STARK_LEN {
        let row = trace.values[at(r, 0)..at(r + 1, 0)].to_vec();
        for (bus, key, freq) in tables(&row) {
            if let Some(n) = asked.remove(&(bus, key)) {
                trace.values[at(r, freq)] = n.as_canonical_u64();
            }
        }
    }
    for ((bus, key), n) in asked {
        let r = key.first().map_or(0, |k| *k as usize);
        if bus == BUS_CV_ROUTING && r < MIN_STARK_LEN && key[1..].iter().all(|&v| v == 0) {
            trace.values[at(r, CV_OUT_FREQ)] = n.as_canonical_u64();
        }
    }
}

/// Whether every bus balances.
fn balances(trace: &RowMajorMatrix) -> bool {
    let (_, buses) = system();
    totals(&buses, trace, false).values().all(|&s| s == Goldilocks::new(0))
}

/// Whether a trace meets the constraints round its first rows and on its last
/// row, and balances every bus.
fn run_batch(trace: &RowMajorMatrix) -> bool {
    let (rules, _) = system();
    let public = CompositePublicInputs::derive_from_matrix(trace).to_vec();
    let last = MIN_STARK_LEN - 1;
    let meets = (0..128).chain([last]).all(|r| {
        let cur = &trace.values[at(r, 0)..at(r + 1, 0)];
        let below = if r == last { 0 } else { r + 1 };
        let nxt = &trace.values[at(below, 0)..at(below + 1, 0)];
        rules.constraints.iter().all(|c| {
            let applies = match c.rows {
                Rows::All => true,
                Rows::First => r == 0,
                Rows::Last => r == last,
                Rows::Transition => r != last,
            };
            !applies || value(&c.expr, cur, nxt, &public) == Goldilocks::new(0)
        })
    });
    meets && balances(trace)
}

/// Marks a row as a matrix message whose first byte is given.
fn place_urange8_query(trace: &mut RowMajorMatrix, r: usize, byte: u32) {
    let signed = if byte < 128 { byte as i64 } else { byte as i64 - 256 };
    trace.values[at(r, IS_MSG_MAT)] = 1;
    trace.values[at(r, MAT_UNPACK_START)] = val(signed);
    trace.values[at(r, UINT8_DATA_START)] = byte as u64;
    trace.values[at(r, NOISED_PACKED_START)] = val(signed);
}

fn pack4_signed(bytes: &[i8]) -> i64 {
    bytes.iter().enumerate().map(|(j, &b)| (b as i64) * 256i64.pow(j as u32)).sum()
}

/// Marks a row as a matrix message.
fn place_full_msg_mat_row(trace: &mut RowMajorMatrix, r: usize, plain: &[i8; 64]) {
    trace.values[at(r, IS_MSG_MAT)] = 1;
    for i in 0..64 {
        trace.values[at(r, MAT_UNPACK_START + i)] = val(plain[i] as i64);
        trace.values[at(r, UINT8_DATA_START + i)] = (plain[i] as u8) as u64;
    }
    for cell in 0..16 {
        trace.values[at(r, NOISED_PACKED_START + cell)] =
            val(pack4_signed(&plain[cell * 4..cell * 4 + 4]));
    }
}

/// Stores a slice under an identifier.
fn place_noised_store_row(trace: &mut RowMajorMatrix, r: usize, slice: &[i8; 8], id: u64) {
    trace.values[at(r, MAT_ID)] = id;
    trace.values[at(r, MAT_ID_LIMBS_START)] = id;
    for i in 0..8 {
        trace.values[at(r, MAT_UNPACK_START + i)] = val(slice[i] as i64);
    }
    trace.values[at(r, NOISED_PACKED_START)] = val(pack4_signed(&slice[..4]));
    trace.values[at(r, NOISED_PACKED_START + 1)] = val(pack4_signed(&slice[4..]));
}

/// Multiplies a left operand by zero.
fn place_matmul_step(
    trace: &mut RowMajorMatrix,
    r: usize,
    a: &[[i8; TILE_D]; TILE_H],
    first_id: u64,
    is_reset: bool,
) {
    let flag = if is_reset { IS_RESET_CUMSUM } else { IS_UPDATE_CUMSUM };
    trace.values[at(r, flag)] = 1;
    trace.values[at(r, A_ID)] = first_id;
    trace.values[at(r, AB_ID_LIMBS_START)] = first_id;
    trace.values[at(r, AB_ID_PREP)] = first_id;
    let bytes: Vec<i8> = a.iter().flatten().copied().collect();
    for (i, &b) in bytes.iter().enumerate() {
        trace.values[at(r, A_NOISED_UNPACK_START + i)] = val(b as i64);
    }
    for (i, word) in bytes.chunks(4).enumerate() {
        trace.values[at(r, A_NOISED_START + i)] = val(pack4_signed(word));
    }
}

#[test]
fn baseline_balances_via_logup_after_populate() {
    let mut trace = baseline_min();
    populate_lookup_freq(&mut trace);
    assert!(run_batch(&trace), "baseline must verify");
}

#[test]
fn single_u8_query_balances_via_logup() {
    let mut trace = baseline_min();
    place_urange8_query(&mut trace, 0, 42);
    populate_lookup_freq(&mut trace);
    assert!(run_batch(&trace), "single in-range query must verify");
}

#[test]
fn out_of_range_uint8_silenced_when_is_msg_mat_zero() {
    let mut trace = baseline_min();
    trace.values[at(0, UINT8_DATA_START)] = 300;
    populate_lookup_freq(&mut trace);
    assert!(run_batch(&trace), "out-of-range u8 on a plain row must still verify");
}

#[test]
fn out_of_range_uint8_with_active_query_rejected_by_logup() {
    let mut trace = baseline_min();
    trace.values[at(0, IS_MSG_MAT)] = 1;
    trace.values[at(0, UINT8_DATA_START)] = 300;
    populate_lookup_freq(&mut trace);
    assert!(!run_batch(&trace), "out-of-range query must reject");
}

#[test]
fn over_claimed_urange8_freq_rejected_by_logup() {
    let mut trace = baseline_min();
    populate_lookup_freq(&mut trace);
    trace.values[at(42, URANGE8_FREQ)] = 1;
    assert!(!run_batch(&trace), "over-claimed URANGE8_FREQ must reject");
}

#[test]
fn under_claimed_urange8_freq_rejected_by_logup() {
    let mut trace = baseline_min();
    place_urange8_query(&mut trace, 0, 42);
    assert!(!run_batch(&trace), "missing URANGE8_FREQ must reject");
}

#[test]
fn composite_full_air_with_lookups_multi_query_same_value_balances() {
    let mut trace = baseline_min();
    for r in 0..5 {
        place_urange8_query(&mut trace, r, 42);
    }
    populate_lookup_freq(&mut trace);
    assert!(run_batch(&trace), "five queries at value 42 must verify");
}

#[test]
fn queries_at_different_values_balance() {
    let mut trace = baseline_min();
    place_urange8_query(&mut trace, 0, 1);
    place_urange8_query(&mut trace, 1, 42);
    place_urange8_query(&mut trace, 2, 200);
    populate_lookup_freq(&mut trace);
    assert!(run_batch(&trace), "three distinct queries must verify");
}

#[test]
fn out_of_range_mat_id_limb_rejected_by_logup() {
    let mut trace = baseline_min();
    trace.values[at(0, MAT_ID_LIMBS_START)] = 9000;
    populate_lookup_freq(&mut trace);
    assert!(!run_batch(&trace), "MAT_ID_LIMBS out of u13 range must reject");
}

#[test]
fn out_of_range_noise_unpack_rejected_by_logup() {
    let mut trace = baseline_min();
    trace.values[at(0, NOISE_UNPACK_START)] = 100;
    populate_lookup_freq(&mut trace);
    assert!(!run_batch(&trace), "NOISE_UNPACK out of [-64, 64] must reject");
    assert!(!balances(&trace));
}

#[test]
fn out_of_range_a_noised_unpack_rejected_by_logup() {
    let mut trace = baseline_min();
    trace.values[at(0, A_NOISED_UNPACK_START)] = 200;
    populate_lookup_freq(&mut trace);
    assert!(!run_batch(&trace), "A_NOISED_UNPACK out of i8 range must reject");
}

#[test]
fn out_of_range_b_noised_unpack_negative_rejected_by_logup() {
    let mut trace = baseline_min();
    trace.values[at(0, B_NOISED_UNPACK_START)] = val(-200);
    populate_lookup_freq(&mut trace);
    assert!(!run_batch(&trace), "negative out-of-range B_NOISED_UNPACK must reject");
}

#[test]
fn out_of_range_mat_unpack_rejected_by_logup() {
    let mut trace = baseline_min();
    trace.values[at(0, MAT_UNPACK_START)] = 150;
    populate_lookup_freq(&mut trace);
    assert!(!run_batch(&trace), "MAT_UNPACK out of range must reject");
    assert!(!balances(&trace));
}

#[test]
fn in_range_a_noised_unpack_balances() {
    let mut trace = baseline_min();
    for (off, v) in [(0usize, -128i64), (1, 127), (2, 0), (3, -1)] {
        trace.values[at(0, A_NOISED_UNPACK_START + off)] = val(v);
    }
    populate_lookup_freq(&mut trace);
    assert!(run_batch(&trace), "in-range A_NOISED_UNPACK values must verify");
}

#[test]
fn valid_i8u8_pair_balances_via_logup() {
    let mut trace = baseline_min();
    place_urange8_query(&mut trace, 0, 42);
    populate_lookup_freq(&mut trace);
    assert_eq!(trace.values[at(170, I8U8_FREQ)], 1);
    assert!(run_batch(&trace), "valid (42, 42) pair must verify");
}

#[test]
fn valid_negative_i8u8_pair_balances() {
    let mut trace = baseline_min();
    place_urange8_query(&mut trace, 0, 255);
    populate_lookup_freq(&mut trace);
    assert_eq!(trace.values[at(127, I8U8_FREQ)], 1);
    assert!(run_batch(&trace), "valid (-1, 255) pair must verify");
}

#[test]
fn inconsistent_i8u8_pair_rejected_by_logup() {
    let mut trace = baseline_min();
    place_urange8_query(&mut trace, 0, 42);
    trace.values[at(0, UINT8_DATA_START)] = 43;
    populate_lookup_freq(&mut trace);
    assert!(!run_batch(&trace), "inconsistent pair (42, 43) must reject");
}

/// The matrix byte is changed, the message byte is not, and the packed word
/// follows the matrix byte.
#[test]
fn non_first_subslice_split_view_rejected_by_i8u8_logup() {
    for byte in [8usize, 15, 16, 31, 32, 47, 48, 63] {
        let mut trace = baseline_min();
        let mut plain = [0i8; 64];
        plain[byte] = 5;
        place_full_msg_mat_row(&mut trace, 0, &plain);
        plain[byte] = 6;
        let cell = byte / 4;
        trace.values[at(0, MAT_UNPACK_START + byte)] = 6;
        trace.values[at(0, NOISED_PACKED_START + cell)] =
            val(pack4_signed(&plain[cell * 4..cell * 4 + 4]));
        populate_lookup_freq(&mut trace);
        assert!(!run_batch(&trace), "split view at byte {byte} must reject");
    }
}

#[test]
fn non_first_subslice_mat_freq_drop_rejected_by_logup() {
    let mut trace = baseline_min();
    let mut plain = [0i8; 64];
    plain[63] = -7;
    place_full_msg_mat_row(&mut trace, 0, &plain);
    populate_lookup_freq(&mut trace);
    assert!(run_batch(&trace));
    trace.values[at(0, MAT_FREQ + 7)] = 0;
    assert!(!run_batch(&trace), "dropping a later MAT_FREQ must reject");
}

#[test]
fn tampered_i8u8_freq_rejected_by_logup() {
    let mut trace = baseline_min();
    populate_lookup_freq(&mut trace);
    trace.values[at(128, I8U8_FREQ)] = 1;
    assert!(!run_batch(&trace), "over-claimed I8U8_FREQ must reject");
}

#[test]
fn matmul_chain_with_zero_reads_balances_noised_packed() {
    let mut trace = baseline_min();
    let a = [[0i8; TILE_D]; TILE_H];
    place_matmul_step(&mut trace, 8, &a, 0, true);
    place_matmul_step(&mut trace, 9, &a, 0, false);
    populate_lookup_freq(&mut trace);
    assert_eq!(trace.values[at(0, MAT_FREQ)], 16);
    assert!(run_batch(&trace), "matmul chain with zero reads must verify");
}

#[test]
fn tampered_a_noised_with_no_matching_table_entry_rejects() {
    let mut trace = baseline_min();
    place_matmul_step(&mut trace, 8, &[[0i8; TILE_D]; TILE_H], 0, true);
    trace.values[at(8, A_NOISED_START)] = 0xDEAD_BEEF;
    populate_lookup_freq(&mut trace);
    assert!(!run_batch(&trace), "tampered A_NOISED must reject");
    assert!(!balances(&trace));
}

#[test]
fn positioned_lookup_accepts_exact_chunk_id_and_value() {
    let mut trace = baseline_min();
    let committed = [3i8, 4, 5, 6, 7, 8, 9, 10];
    place_noised_store_row(&mut trace, 32, &committed, NOISED_CHUNK_ID_BASE);
    let mut a = [[0i8; TILE_D]; TILE_H];
    a[0][..8].copy_from_slice(&committed);
    place_matmul_step(&mut trace, 8, &a, NOISED_CHUNK_ID_BASE, true);
    populate_lookup_freq(&mut trace);
    assert!(run_batch(&trace), "exact identifier and value must verify");
}

#[test]
fn positioned_lookup_rejects_zero_substitution_against_padding() {
    let mut trace = baseline_min();
    let committed = [3i8, 4, 5, 6, 7, 8, 9, 10];
    place_noised_store_row(&mut trace, 32, &committed, NOISED_CHUNK_ID_BASE);
    place_matmul_step(&mut trace, 8, &[[0i8; TILE_D]; TILE_H], NOISED_CHUNK_ID_BASE, true);
    populate_lookup_freq(&mut trace);
    assert!(!run_batch(&trace), "zero substitution must reject");
}

#[test]
fn positioned_lookup_rejects_value_from_wrong_position() {
    let mut trace = baseline_min();
    let chunk_a = [1i8, 2, 3, 4, 5, 6, 7, 8];
    let chunk_b = [11i8, 12, 13, 14, 15, 16, 17, 18];
    place_noised_store_row(&mut trace, 32, &chunk_a, NOISED_CHUNK_ID_BASE);
    place_noised_store_row(&mut trace, 33, &chunk_b, NOISED_CHUNK_ID_BASE + 1);
    let mut a = [[0i8; TILE_D]; TILE_H];
    a[0][..8].copy_from_slice(&chunk_b);
    place_matmul_step(&mut trace, 8, &a, NOISED_CHUNK_ID_BASE, true);
    populate_lookup_freq(&mut trace);
    assert!(!run_batch(&trace), "value from the wrong position must reject");
}

#[test]
fn tampered_mat_freq_rejected_by_logup() {
    let mut trace = baseline_min();
    populate_lookup_freq(&mut trace);
    trace.values[at(0, MAT_FREQ)] += 1;
    assert!(!run_batch(&trace), "over-claimed MAT_FREQ must reject");
}

#[test]
fn isolated_noised_packed_change_with_no_queries_verifies() {
    let mut trace = baseline_min();
    trace.values[at(0, NOISED_PACKED_START)] = 7;
    populate_lookup_freq(&mut trace);
    assert!(balances(&trace));
    assert!(!run_batch(&trace), "NOISED_PACKED inconsistent with MAT_UNPACK must reject");
}

#[test]
fn baseline_cv_routing_balances() {
    let mut trace = baseline_min();
    populate_lookup_freq(&mut trace);
    assert!(run_batch(&trace), "baseline routing must verify");
}

#[test]
fn cv_routing_zero_cv_reference_balances() {
    let mut trace = baseline_min();
    trace.values[at(100, IS_CV_IN)] = 1;
    trace.values[at(100, CV_OR_TWEAK_PREP)] = 50;
    populate_lookup_freq(&mut trace);
    assert_eq!(trace.values[at(50, CV_OUT_FREQ)], 1);
    assert!(run_batch(&trace), "routing of a zero value from row 50 must verify");
}

#[test]
fn cv_routing_dangling_reference_rejected() {
    let mut trace = baseline_min();
    trace.values[at(100, IS_CV_IN)] = 1;
    trace.values[at(100, CV_OR_TWEAK_PREP)] = 99999;
    populate_lookup_freq(&mut trace);
    assert!(!run_batch(&trace), "dangling reference must reject");
}

#[test]
fn cv_routing_wrong_cv_value_rejected() {
    let mut trace = baseline_min();
    trace.values[at(100, IS_CV_IN)] = 1;
    trace.values[at(100, CV_OR_TWEAK_PREP)] = 50;
    trace.values[at(100, CV_IN_START)] = 12345;
    populate_lookup_freq(&mut trace);
    assert!(!run_batch(&trace), "wrong value must reject");
}

#[test]
fn tampered_cv_out_freq_rejected_by_logup() {
    let mut trace = baseline_min();
    populate_lookup_freq(&mut trace);
    trace.values[at(50, CV_OUT_FREQ)] = 1;
    assert!(!run_batch(&trace), "over-claimed CV_OUT_FREQ must reject");
}

#[test]
fn tampered_urange13_freq_rejected_by_logup() {
    let mut trace = baseline_min();
    populate_lookup_freq(&mut trace);
    assert_eq!(trace.values[at(0, URANGE13_FREQ)], 6 * 8192);
    trace.values[at(0, URANGE13_FREQ)] += 1;
    assert!(!run_batch(&trace), "over-claimed URANGE13_FREQ must reject");
}

#[test]
fn bytes_round_the_range_ends() {
    for v in [-128i64, -1, 0, 127] {
        let mut trace = baseline_min();
        trace.values[at(0, A_NOISED_UNPACK_START)] = val(v);
        populate_lookup_freq(&mut trace);
        assert!(run_batch(&trace), "{v} must verify");
    }
    for v in [-1000i64, -129, 128, 12345] {
        let mut trace = baseline_min();
        trace.values[at(0, A_NOISED_UNPACK_START)] = val(v);
        populate_lookup_freq(&mut trace);
        assert!(!run_batch(&trace), "{v} must reject");
    }
}

#[test]
fn message_bytes_round_the_range_ends() {
    for (byte, ok) in [(64u32, true), (65, false), (191, false), (192, true)] {
        let mut trace = baseline_min();
        place_urange8_query(&mut trace, 0, byte);
        populate_lookup_freq(&mut trace);
        assert_eq!(run_batch(&trace), ok, "{byte}");
    }
}

#[test]
fn matmul_composite_offsets_fit_within_total_trace_width() {
    let off = MatmulCumsumChip::composite_offsets();
    assert!(off.a_unpack_start + TILE_H * TILE_D <= TOTAL_TRACE_WIDTH);
    assert!(off.b_unpack_start + TILE_H * TILE_D <= TOTAL_TRACE_WIDTH);
    assert!(off.cumsum_start + TILE_H * TILE_H <= TOTAL_TRACE_WIDTH);
    assert!(off.is_reset_col < TOTAL_TRACE_WIDTH);
    assert!(off.is_update_col < TOTAL_TRACE_WIDTH);
}

#[test]
fn jackpot_composite_offsets_fit_within_total_trace_width() {
    let off = JackpotChip::composite_offsets();
    assert!(off.jackpot_msg_start + JACKPOT_SIZE <= TOTAL_TRACE_WIDTH);
    assert!(off.v_bits_start + 32 <= TOTAL_TRACE_WIDTH);
    assert!(off.x_bits_start + 32 <= TOTAL_TRACE_WIDTH);
    assert!(off.slot_sel_start + JACKPOT_SIZE <= TOTAL_TRACE_WIDTH);
    assert!(off.is_active_col < TOTAL_TRACE_WIDTH);
}
