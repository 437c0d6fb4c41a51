use ai_pow_zk::chips::jackpot::compute::{
    apply_jackpot_step, bit_decompose_u32, one_hot_select, rotate_xor_13,
};
use ai_pow_zk::composite_layout::{JACKPOT_SIZE, LROT_PER_TILE};

#[test]
fn rotate_xor_13_zero_zero_is_zero() {
    assert_eq!(rotate_xor_13(0, 0), 0);
}

#[test]
fn rotate_xor_13_zero_x_is_x() {
    assert_eq!(rotate_xor_13(0, 0xDEADBEEF), 0xDEADBEEF);
}

#[test]
fn rotate_xor_13_matches_definition() {
    let v: u32 = 0x12345678;
    let x: u32 = 0xCAFEBABE;
    assert_eq!(rotate_xor_13(v, x), v.rotate_left(13) ^ x);
}

#[test]
fn rotate_xor_13_lrot_constant_pinned() {
    assert_eq!(LROT_PER_TILE, 13);
}

#[test]
fn apply_jackpot_step_only_touches_selected_slot() {
    let mut state = [0u32; JACKPOT_SIZE];
    for i in 0..JACKPOT_SIZE {
        state[i] = (i as u32 + 1) * 0x01010101;
    }
    let original = state;
    let next = apply_jackpot_step(&state, 5, 0xFFFF_FFFF, true);
    assert_eq!(next[5], rotate_xor_13(original[5], 0xFFFF_FFFF));
    for i in 0..JACKPOT_SIZE {
        if i != 5 {
            assert_eq!(next[i], original[i], "slot {i} should be unchanged");
        }
    }
}

#[test]
fn apply_jackpot_step_inactive_preserves_state() {
    let state: [u32; JACKPOT_SIZE] = core::array::from_fn(|i| (i + 1) as u32 * 0xBEEF);
    let next = apply_jackpot_step(&state, 0, 0xDEAD, false);
    assert_eq!(next, state);
}

#[test]
fn one_hot_select_returns_unit_vector() {
    let oh = one_hot_select(7);
    assert_eq!(oh.iter().sum::<u32>(), 1);
    assert_eq!(oh[7], 1);
    for i in 0..JACKPOT_SIZE {
        if i != 7 {
            assert_eq!(oh[i], 0);
        }
    }
}

#[test]
fn bit_decompose_round_trips() {
    let v: u32 = 0xC0FFEE_42;
    let bits = bit_decompose_u32(v);
    let mut recomposed: u32 = 0;
    for i in 0..32 {
        recomposed |= bits[i] << i;
    }
    assert_eq!(recomposed, v);
    for b in bits.iter() {
        assert!(*b == 0 || *b == 1);
    }
}

#[test]
fn jackpot_size_pinned() {
    assert_eq!(JACKPOT_SIZE, 16);
}

#[test]
fn rotate_xor_13_avalanche() {
    let v = 0x12345678u32;
    let x = 0;
    let a = rotate_xor_13(v, x);
    let b = rotate_xor_13(v ^ 1, x);
    let diff = (a ^ b).count_ones();
    assert_eq!(diff, 1);
}

#[test]
fn multi_step_chain_is_deterministic() {
    let mut state: [u32; JACKPOT_SIZE] = [0; JACKPOT_SIZE];
    state[0] = 0xDEADBEEF;
    let mut state_a = state;
    let mut state_b = state;
    for (slot, x) in [(0u32, 0xCAFE), (3, 0xBABE), (15, 0xF00D)].iter() {
        state_a = apply_jackpot_step(&state_a, *slot as usize, *x, true);
        state_b = apply_jackpot_step(&state_b, *slot as usize, *x, true);
    }
    assert_eq!(state_a, state_b);
}
