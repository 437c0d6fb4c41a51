use ai_pow_zk::composite_layout::{
    AB_ID_LIMBS_LEN, AB_ID_LIMBS_START, AB_ID_PREP, A_ID, A_ID_LEN, A_NOISED_LEN,
    A_NOISED_START, A_NOISED_UNPACK_LEN, A_NOISED_UNPACK_START, BITS_PER_LIMB, BIT_REG_LEN,
    BIT_REG_START, BLAKE3_CV_LEN, BLAKE3_CV_START, BLAKE3_MSG_BUFFER_LEN,
    BLAKE3_MSG_BUFFER_START, BLAKE3_MSG_LEN, BLAKE3_MSG_START, BLAKE3_ROUND_LEN,
    BLAKE3_ROUND_START, BLOCK_COMMITMENT_BYTES, BLOCK_COMMITMENT_WORDS, BYTES_PER_GOLDILOCKS,
    B_ID, B_ID_LEN, B_NOISED_LEN, B_NOISED_START, B_NOISED_UNPACK_LEN, B_NOISED_UNPACK_START,
    CONTROL_PREP, CUMSUM_BUFFER_LEN, CUMSUM_BUFFER_START, CUMSUM_TILE_LEN, CUMSUM_TILE_START,
    CV_IN_LEN, CV_IN_START, CV_OR_TWEAK_PREP, CV_OUT_FREQ, CV_OUT_LEN, CV_OUT_START,
    FOLD_IS_FOLD, FOLD_MCUR_BITS_LEN, FOLD_MCUR_BITS_START, FOLD_SLOT_SEL_LEN,
    FOLD_SLOT_SEL_START, FOLD_STATE_LEN, FOLD_STATE_START, FOLD_STRIPE_SEL_LEN,
    FOLD_STRIPE_SEL_START, FOLD_XOR_OUT, FOLD_XSTEP, FOLD_XSTEP_BITS_LEN, FOLD_XSTEP_BITS_START,
    JACKPOT_IDX_LEN, JACKPOT_IDX_START, JACKPOT_MSG_LEN, JACKPOT_MSG_START, JACKPOT_SIZE,
    JACKPOT_SLOT_SEL_LEN, JACKPOT_SLOT_SEL_START, JACKPOT_X_BITS_LEN, JACKPOT_X_BITS_START,
    LROT_PER_TILE, MAT_FREQ, MAT_FREQ_LEN, MAT_ID, MAT_ID_LIMBS_LEN, MAT_ID_LIMBS_START,
    MAT_UNPACK_LEN, MAT_UNPACK_START, MAT_UNPACK_WIN, MIN_STARK_LEN, MSG_PAIR_SEL_LEN,
    MSG_PAIR_SEL_START, NOISED_PACKED_LEN, NOISED_PACKED_START, NOISED_PACKED_WIN,
    NOISE_PACKED_PREP, NOISE_PACKED_PREP_LEN, NOISE_UNPACK_LEN, NOISE_UNPACK_START,
    NOISE_UNPACK_WIN, NUM_CONTROL_COLS, NUM_RANGE_COLS, RB_CONTROL_PREP,
    ROUNDS_PER_BLAKE_INSTRUCTION, STARK_ROW_IDX, SX_CONTROL_PREP, SX_IN_BITS_LEN,
    SX_IN_BITS_START, SX_IN_LEN, SX_IN_START, SX_IS_ACTIVE, SX_LANE_SEL_LEN, SX_LANE_SEL_START,
    SX_NEW_SEL, SX_NEW_SEL_BITS_LEN, SX_NEW_SEL_BITS_START, SX_OVERLAY_LEN, SX_Q_LEN,
    SX_Q_START, SX_SEG_RESET, SX_XR_LEN, SX_XR_SEL_BITS_LEN, SX_XR_SEL_BITS_START, SX_XR_START,
    TA_ACC_LEN, TA_ACC_START, TA_END, TA_IS_ACTIVE, TILE_D, TILE_H, TOTAL_TRACE_WIDTH, TR_END,
    TR_IS_ACTIVE, TR_Q_LEN, TR_Q_START, UINT8_DATA_LEN, UINT8_DATA_START, UINT8_DATA_WIN,
};

#[test]
fn inner_air_column_inventory() {
    let range_tables = NUM_RANGE_COLS;
    let control = NUM_CONTROL_COLS;
    let input_unpacking =
        MAT_UNPACK_LEN + UINT8_DATA_LEN + NOISE_PACKED_PREP_LEN + NOISE_UNPACK_LEN;
    let noised_packed_indexing = NOISED_PACKED_LEN
        + MAT_FREQ_LEN
        + 1
        + MAT_ID_LIMBS_LEN
        + 1
        + AB_ID_LIMBS_LEN
        + A_ID_LEN
        + B_ID_LEN
        + 1;
    let matmul_tile = A_NOISED_LEN + A_NOISED_UNPACK_LEN + B_NOISED_LEN + B_NOISED_UNPACK_LEN;
    let matmul_accum = CUMSUM_TILE_LEN + CUMSUM_BUFFER_LEN;
    let jackpot_state = JACKPOT_MSG_LEN + BIT_REG_LEN + JACKPOT_IDX_LEN;
    let blake3_buffers = BLAKE3_MSG_BUFFER_LEN + 1 + CV_IN_LEN + BLAKE3_MSG_LEN
            + BLAKE3_CV_LEN;
    let blake3_round = BLAKE3_ROUND_LEN;
    let blake3_output = CV_OUT_LEN;
    let jackpot_xbits = JACKPOT_X_BITS_LEN + JACKPOT_SLOT_SEL_LEN + 1;
    let fold = 1
        + FOLD_SLOT_SEL_LEN
        + 1
        + FOLD_XSTEP_BITS_LEN
        + FOLD_STATE_LEN
        + FOLD_MCUR_BITS_LEN
        + 1;
    let sx = 1
        + SX_LANE_SEL_LEN
        + SX_IN_LEN
        + SX_XR_LEN
        + 1
        + SX_Q_LEN
        + 1;
    let fold_stripe_sel = FOLD_STRIPE_SEL_LEN;
    let msg_pair_sel = MSG_PAIR_SEL_LEN;
    let r_b = TR_END - TA_IS_ACTIVE;
    let pinned_schedule = TOTAL_TRACE_WIDTH - TR_END;

    let groups: [(&str, usize); 17] = [
        ("range_tables", range_tables),
        ("control", control),
        ("input_unpacking", input_unpacking),
        ("noised_packed_indexing", noised_packed_indexing),
        ("matmul_tile", matmul_tile),
        ("matmul_accum", matmul_accum),
        ("jackpot_state", jackpot_state),
        ("blake3_buffers", blake3_buffers),
        ("blake3_round", blake3_round),
        ("blake3_output", blake3_output),
        ("jackpot_xbits", jackpot_xbits),
        ("fold", fold),
        ("sx_stripe", sx),
        ("fold_stripe_sel", fold_stripe_sel),
        ("msg_pair_sel", msg_pair_sel),
        ("r_b_stripe_major", r_b),
        ("pinned_schedule", pinned_schedule),
    ];

    let sum: usize = groups.iter().map(|(_, n)| *n).sum();
    assert_eq!(range_tables, 11);
    assert_eq!(control, 22);
    assert_eq!(input_unpacking, 200);
    assert_eq!(noised_packed_indexing, 41);
    assert_eq!(matmul_tile, 80);
    assert_eq!(matmul_accum, 8);
    assert_eq!(jackpot_state, 56);
    assert_eq!(blake3_buffers, 49);
    assert_eq!(blake3_round, 1056);
    assert_eq!(blake3_output, 8);
    assert_eq!(jackpot_xbits, 49);
    assert_eq!(fold, 99);
    assert_eq!(sx, 167);
    assert_eq!(fold_stripe_sel, 64);
    assert_eq!(msg_pair_sel, 8);
    assert_eq!(r_b, 558);
    assert_eq!(pinned_schedule, 2);
    assert_eq!(
        sum, TOTAL_TRACE_WIDTH,
        "inventory groups ({sum}) must sum to TOTAL_TRACE_WIDTH ({TOTAL_TRACE_WIDTH})"
    );
    assert!(
        blake3_round * 100 >= TOTAL_TRACE_WIDTH * 42,
        "blake3_round ({blake3_round}) should be ≥42% of the {TOTAL_TRACE_WIDTH}-col trace"
    );
    assert!(
        (blake3_round + sx) * 100 >= TOTAL_TRACE_WIDTH * 49,
        "blake3_round + sx_stripe should be ≥49% of the R-b-widened trace"
    );
}
#[test]
fn layout_constants_pin() {
    assert_eq!(BYTES_PER_GOLDILOCKS, 4);
    assert_eq!(BITS_PER_LIMB, 13);
    assert_eq!(BLOCK_COMMITMENT_BYTES, 32);
    assert_eq!(BLOCK_COMMITMENT_WORDS, 8);
    assert_eq!(TILE_D, 16);
    assert_eq!(TILE_H, 2);
    assert_eq!(JACKPOT_SIZE, 16);
    assert_eq!(LROT_PER_TILE, 13);
    assert_eq!(ROUNDS_PER_BLAKE_INSTRUCTION, 8);
    assert_eq!(MIN_STARK_LEN, 8192);

    assert_eq!(NUM_RANGE_COLS, 11);
    assert_eq!(CONTROL_PREP, 11);
    assert_eq!(NUM_CONTROL_COLS, 22);
}
#[test]
fn ram_lookup_column_widths_match_pearl() {
    assert_eq!(JACKPOT_X_BITS_LEN, 32);
    assert_eq!(JACKPOT_SLOT_SEL_LEN, 16);
    assert_eq!(MAT_UNPACK_LEN, 64);
    assert_eq!(MAT_UNPACK_WIN, 64);
    assert_eq!(UINT8_DATA_LEN, 64);
    assert_eq!(UINT8_DATA_WIN, 64);
    assert_eq!(NOISE_UNPACK_LEN, 64);
    assert_eq!(NOISE_UNPACK_WIN, 64);
    assert_eq!(NOISED_PACKED_LEN, 16);
    assert_eq!(NOISED_PACKED_WIN, 2);
    assert_eq!(MAT_ID_LIMBS_LEN, 2);
    assert_eq!(AB_ID_LIMBS_LEN, 4);
    assert_eq!(A_NOISED_LEN, 8);
    assert_eq!(A_NOISED_UNPACK_LEN, 32);
    assert_eq!(B_NOISED_LEN, 8);
    assert_eq!(B_NOISED_UNPACK_LEN, 32);
    assert_eq!(CUMSUM_TILE_LEN, 4);
    assert_eq!(CUMSUM_BUFFER_LEN, 4);
    assert_eq!(JACKPOT_MSG_LEN, 16);
    assert_eq!(BIT_REG_LEN, 32);
    assert_eq!(JACKPOT_IDX_LEN, 8);
    assert_eq!(BLAKE3_MSG_BUFFER_LEN, 16);
    assert_eq!(CV_IN_LEN, 8);
    assert_eq!(BLAKE3_MSG_LEN, 16);
    assert_eq!(BLAKE3_CV_LEN, 8);
    assert_eq!(BLAKE3_ROUND_LEN, 1056);
    assert_eq!(CV_OUT_LEN, 8);
}
#[test]
fn layout_offsets_are_contiguous() {
    let checkpoints: &[(usize, usize, &str)] = &[
        (NUM_RANGE_COLS, CONTROL_PREP, "range → CONTROL_PREP"),
        (
            CONTROL_PREP + NUM_CONTROL_COLS,
            MAT_UNPACK_START,
            "control → MAT_UNPACK",
        ),
        (
            MAT_UNPACK_START + MAT_UNPACK_LEN,
            UINT8_DATA_START,
            "MAT_UNPACK → UINT8_DATA",
        ),
        (
            UINT8_DATA_START + UINT8_DATA_LEN,
            NOISE_PACKED_PREP,
            "UINT8_DATA → NOISE_PACKED_PREP",
        ),
        (
            NOISE_PACKED_PREP + NOISE_PACKED_PREP_LEN,
            NOISE_UNPACK_START,
            "NOISE_PACKED_PREP → NOISE_UNPACK",
        ),
        (
            NOISE_UNPACK_START + NOISE_UNPACK_LEN,
            NOISED_PACKED_START,
            "NOISE_UNPACK → NOISED_PACKED",
        ),
        (
            NOISED_PACKED_START + NOISED_PACKED_LEN,
            MAT_FREQ,
            "NOISED_PACKED → MAT_FREQ",
        ),
        (MAT_FREQ + MAT_FREQ_LEN, MAT_ID, "MAT_FREQ → MAT_ID"),
        (MAT_ID + 1, MAT_ID_LIMBS_START, "MAT_ID → MAT_ID_LIMBS"),
        (
            MAT_ID_LIMBS_START + MAT_ID_LIMBS_LEN,
            AB_ID_PREP,
            "MAT_ID_LIMBS → AB_ID_PREP",
        ),
        (
            AB_ID_PREP + 1,
            AB_ID_LIMBS_START,
            "AB_ID_PREP → AB_ID_LIMBS",
        ),
        (
            AB_ID_LIMBS_START + AB_ID_LIMBS_LEN,
            A_ID,
            "AB_ID_LIMBS → A_ID",
        ),
        (A_ID + A_ID_LEN, B_ID, "A_ID → B_ID"),
        (B_ID + B_ID_LEN, STARK_ROW_IDX, "B_ID → STARK_ROW_IDX"),
        (
            STARK_ROW_IDX + 1,
            A_NOISED_START,
            "STARK_ROW_IDX → A_NOISED",
        ),
        (
            A_NOISED_START + A_NOISED_LEN,
            A_NOISED_UNPACK_START,
            "A_NOISED → A_NOISED_UNPACK",
        ),
        (
            A_NOISED_UNPACK_START + A_NOISED_UNPACK_LEN,
            B_NOISED_START,
            "A_NOISED_UNPACK → B_NOISED",
        ),
        (
            B_NOISED_START + B_NOISED_LEN,
            B_NOISED_UNPACK_START,
            "B_NOISED → B_NOISED_UNPACK",
        ),
        (
            B_NOISED_UNPACK_START + B_NOISED_UNPACK_LEN,
            CUMSUM_TILE_START,
            "B_NOISED_UNPACK → CUMSUM_TILE",
        ),
        (
            CUMSUM_TILE_START + CUMSUM_TILE_LEN,
            CUMSUM_BUFFER_START,
            "CUMSUM_TILE → CUMSUM_BUFFER",
        ),
        (
            CUMSUM_BUFFER_START + CUMSUM_BUFFER_LEN,
            JACKPOT_MSG_START,
            "CUMSUM_BUFFER → JACKPOT_MSG",
        ),
        (
            JACKPOT_MSG_START + JACKPOT_MSG_LEN,
            BIT_REG_START,
            "JACKPOT_MSG → BIT_REG",
        ),
        (
            BIT_REG_START + BIT_REG_LEN,
            JACKPOT_IDX_START,
            "BIT_REG → JACKPOT_IDX",
        ),
        (
            JACKPOT_IDX_START + JACKPOT_IDX_LEN,
            BLAKE3_MSG_BUFFER_START,
            "JACKPOT_IDX → BLAKE3_MSG_BUFFER",
        ),
        (
            BLAKE3_MSG_BUFFER_START + BLAKE3_MSG_BUFFER_LEN,
            CV_OR_TWEAK_PREP,
            "BLAKE3_MSG_BUFFER → CV_OR_TWEAK_PREP",
        ),
        (
            CV_OR_TWEAK_PREP + 1,
            CV_IN_START,
            "CV_OR_TWEAK_PREP → CV_IN",
        ),
        (
            CV_IN_START + CV_IN_LEN,
            BLAKE3_MSG_START,
            "CV_IN → BLAKE3_MSG",
        ),
        (
            BLAKE3_MSG_START + BLAKE3_MSG_LEN,
            BLAKE3_CV_START,
            "BLAKE3_MSG → BLAKE3_CV",
        ),
        (
            BLAKE3_CV_START + BLAKE3_CV_LEN,
            BLAKE3_ROUND_START,
            "BLAKE3_CV → BLAKE3_ROUND",
        ),
        (
            BLAKE3_ROUND_START + BLAKE3_ROUND_LEN,
            CV_OUT_START,
            "BLAKE3_ROUND → CV_OUT",
        ),
        (
            CV_OUT_START + CV_OUT_LEN,
            JACKPOT_X_BITS_START,
            "CV_OUT → JACKPOT_X_BITS",
        ),
        (
            JACKPOT_X_BITS_START + JACKPOT_X_BITS_LEN,
            JACKPOT_SLOT_SEL_START,
            "JACKPOT_X_BITS → JACKPOT_SLOT_SEL",
        ),
        (
            JACKPOT_SLOT_SEL_START + JACKPOT_SLOT_SEL_LEN,
            CV_OUT_FREQ,
            "JACKPOT_SLOT_SEL → CV_OUT_FREQ",
        ),
        (CV_OUT_FREQ + 1, FOLD_IS_FOLD, "CV_OUT_FREQ → FOLD_IS_FOLD"),
        (
            FOLD_IS_FOLD + 1,
            FOLD_SLOT_SEL_START,
            "FOLD_IS_FOLD → FOLD_SLOT_SEL",
        ),
        (
            FOLD_SLOT_SEL_START + FOLD_SLOT_SEL_LEN,
            FOLD_XSTEP,
            "FOLD_SLOT_SEL → FOLD_XSTEP",
        ),
        (
            FOLD_XSTEP + 1,
            FOLD_XSTEP_BITS_START,
            "FOLD_XSTEP → FOLD_XSTEP_BITS",
        ),
        (
            FOLD_XSTEP_BITS_START + FOLD_XSTEP_BITS_LEN,
            FOLD_STATE_START,
            "FOLD_XSTEP_BITS → FOLD_STATE",
        ),
        (
            FOLD_STATE_START + FOLD_STATE_LEN,
            FOLD_MCUR_BITS_START,
            "FOLD_STATE → FOLD_MCUR_BITS",
        ),
        (
            FOLD_MCUR_BITS_START + FOLD_MCUR_BITS_LEN,
            FOLD_XOR_OUT,
            "FOLD_MCUR_BITS → FOLD_XOR_OUT",
        ),
        (
            FOLD_XOR_OUT + 1,
            SX_IS_ACTIVE,
            "FOLD_XOR_OUT → SX_IS_ACTIVE",
        ),
        (
            SX_IS_ACTIVE + 1,
            SX_LANE_SEL_START,
            "SX_IS_ACTIVE → SX_LANE_SEL",
        ),
        (
            SX_LANE_SEL_START + SX_LANE_SEL_LEN,
            SX_IN_START,
            "SX_LANE_SEL → SX_IN",
        ),
        (SX_IN_START + SX_IN_LEN, SX_XR_START, "SX_IN → SX_XR"),
        (SX_XR_START + SX_XR_LEN, SX_NEW_SEL, "SX_XR → SX_NEW_SEL"),
        (SX_NEW_SEL + 1, SX_Q_START, "SX_NEW_SEL → SX_Q"),
        (
            SX_Q_START + SX_Q_LEN,
            FOLD_STRIPE_SEL_START,
            "SX_Q → FOLD_STRIPE_SEL",
        ),
        (
            FOLD_STRIPE_SEL_START + FOLD_STRIPE_SEL_LEN,
            MSG_PAIR_SEL_START,
            "FOLD_STRIPE_SEL → MSG_PAIR_SEL",
        ),
        (
            MSG_PAIR_SEL_START + MSG_PAIR_SEL_LEN,
            SX_SEG_RESET,
            "MSG_PAIR_SEL → SX_SEG_RESET",
        ),
        (
            SX_SEG_RESET + 1,
            TA_IS_ACTIVE,
            "SX_SEG_RESET → TA_IS_ACTIVE",
        ),
        (TA_ACC_START + TA_ACC_LEN, TA_END, "TA_ACC → TA_END"),
        (TA_END, TR_IS_ACTIVE, "TA_END → TR_IS_ACTIVE"),
        (TR_Q_START + TR_Q_LEN, TR_END, "TR_Q → TR_END"),
        (TR_END, SX_CONTROL_PREP, "TR_END → SX_CONTROL_PREP"),
        (
            SX_CONTROL_PREP + 1,
            RB_CONTROL_PREP,
            "SX_CONTROL_PREP → RB_CONTROL_PREP",
        ),
        (
            RB_CONTROL_PREP + 1,
            TOTAL_TRACE_WIDTH,
            "RB_CONTROL_PREP → TOTAL_TRACE_WIDTH",
        ),
    ];
    for &(end, next, name) in checkpoints {
        assert_eq!(end, next, "layout discontinuity at {name}: {end} != {next}");
    }
    let overlay_chain: [(usize, usize, &str); 3] = [
        (
            SX_IN_BITS_START, BLAKE3_ROUND_START, "SX_IN_BITS @ BLAKE3_ROUND_START",
        ),
        (
            SX_XR_SEL_BITS_START,
            SX_IN_BITS_START + SX_IN_BITS_LEN,
            "SX_XR_SEL_BITS after SX_IN_BITS",
        ),
        (
            SX_NEW_SEL_BITS_START,
            SX_XR_SEL_BITS_START + SX_XR_SEL_BITS_LEN,
            "SX_NEW_SEL_BITS after SX_XR_SEL_BITS",
        ),
    ];
    for &(got, want, name) in overlay_chain.iter() {
        assert_eq!(
            got, want,
            "SX overlay misaligned at {name}: {got} != {want}"
        );
    }
    assert_eq!(
        SX_OVERLAY_LEN,
        SX_IN_BITS_LEN + SX_XR_SEL_BITS_LEN + SX_NEW_SEL_BITS_LEN,
        "SX_OVERLAY_LEN must total the three aliased bit runs"
    );
    assert!(
        BLAKE3_ROUND_START + SX_OVERLAY_LEN <= BLAKE3_ROUND_START + BLAKE3_ROUND_LEN,
        "SX overlay window must fit within the BLAKE3-round region"
    );
}
#[test]
fn total_trace_width_in_pearl_ballpark() {
    assert!(
        TOTAL_TRACE_WIDTH > 1200,
        "TOTAL_TRACE_WIDTH suspiciously small: {TOTAL_TRACE_WIDTH}"
    );
    assert!(
        TOTAL_TRACE_WIDTH < 2600,
        "TOTAL_TRACE_WIDTH suspiciously large: {TOTAL_TRACE_WIDTH} — check for unintended column duplication"
    );
}
#[test]
fn block_commitment_layout_matches_8_u32_le() {
    assert_eq!(
        BLOCK_COMMITMENT_WORDS * BYTES_PER_GOLDILOCKS,
        BLOCK_COMMITMENT_BYTES
    );
    assert_eq!(BLOCK_COMMITMENT_WORDS, 8);
}
