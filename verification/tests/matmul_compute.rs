use ai_pow_zk::chips::matmul::compute::{
    apply_cumsum_update, compute_row, tile_dot, tile_dot_block, CUMSUM_LEN,
};
use ai_pow_zk::composite_layout::{TILE_D, TILE_H};

#[test]
fn tile_dot_simple() {
    let a: [i8; TILE_D] = core::array::from_fn(|i| (i + 1) as i8);
    let b: [i8; TILE_D] = core::array::from_fn(|i| (i + 1) as i8);
    assert_eq!(tile_dot(&a, &b), 1496);
}

#[test]
fn tile_dot_zero_when_either_zero() {
    let a: [i8; TILE_D] = [0; TILE_D];
    let b: [i8; TILE_D] = core::array::from_fn(|i| (i + 1) as i8);
    assert_eq!(tile_dot(&a, &b), 0);
    assert_eq!(tile_dot(&b, &a), 0);
}

#[test]
fn tile_dot_signs() {
    let a: [i8; TILE_D] = core::array::from_fn(|i| if i % 2 == 0 { 1 } else { -1 });
    let b: [i8; TILE_D] = [1; TILE_D];
    assert_eq!(tile_dot(&a, &b), 0);
}

#[test]
fn tile_dot_extreme_values() {
    let a: [i8; TILE_D] = [127; TILE_D];
    let b: [i8; TILE_D] = [127; TILE_D];
    assert_eq!(tile_dot(&a, &b), 16 * 127 * 127);
}

#[test]
fn tile_dot_block_indexing() {
    let mut a = [[0i8; TILE_D]; TILE_H];
    let mut b = [[0i8; TILE_D]; TILE_H];
    for d in 0..TILE_D {
        a[0][d] = 1;
        a[1][d] = 2;
        b[0][d] = 1;
        b[1][d] = 3;
    }
    let out = tile_dot_block(&a, &b);
    assert_eq!(out, [16, 48, 32, 96]);
}

#[test]
fn apply_cumsum_reset_overrides() {
    let old: [i32; CUMSUM_LEN] = [1000, 2000, 3000, 4000];
    let dot: [i32; CUMSUM_LEN] = [10, 20, 30, 40];
    let out = apply_cumsum_update(&old, &dot, true, false);
    assert_eq!(out, dot);
}

#[test]
fn apply_cumsum_update_accumulates() {
    let old: [i32; CUMSUM_LEN] = [1000, 2000, 3000, 4000];
    let dot: [i32; CUMSUM_LEN] = [10, 20, 30, 40];
    let out = apply_cumsum_update(&old, &dot, false, true);
    assert_eq!(out, [1010, 2020, 3030, 4040]);
}

#[test]
fn apply_cumsum_passthrough_when_both_off() {
    let old: [i32; CUMSUM_LEN] = [1000, 2000, 3000, 4000];
    let dot: [i32; CUMSUM_LEN] = [10, 20, 30, 40];
    let out = apply_cumsum_update(&old, &dot, false, false);
    assert_eq!(out, old);
}

#[test]
fn compute_row_end_to_end_reset_then_update() {
    let mut a = [[0i8; TILE_D]; TILE_H];
    let mut b = [[0i8; TILE_D]; TILE_H];
    for d in 0..TILE_D {
        a[0][d] = (d as i8 + 1) % 4;
        a[1][d] = (d as i8 + 1) % 5;
        b[0][d] = ((d as i8 + 2) % 6) - 3;
        b[1][d] = ((d as i8 + 3) % 7) - 3;
    }
    let zero: [i32; CUMSUM_LEN] = [0; CUMSUM_LEN];
    let after_reset = compute_row(&a, &b, &zero, true, false);
    let after_update = compute_row(&a, &b, &after_reset, false, true);
    let dot = tile_dot_block(&a, &b);
    for k in 0..CUMSUM_LEN {
        assert_eq!(after_update[k], dot[k].wrapping_mul(2));
    }
}

#[test]
fn cumsum_len_matches_tile_h_squared() {
    assert_eq!(CUMSUM_LEN, TILE_H * TILE_H);
    assert_eq!(CUMSUM_LEN, 4);
}
