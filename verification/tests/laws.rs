use ai_pow_zk::air::{ConstraintBuilder, Expr, Rows};
use ai_pow_zk::chips::stripe_xor::{ref_stripe_xor, StripeXorChip};
use ai_pow_zk::chips::tile_accum::{ref_accumulate, TileAccumChip};
use ai_pow_zk::chips::tile_reduce::{ref_x_steps, TileReduceChip};
use ai_pow_zk::chips::xstep::ref_xstep;
use ai_pow_zk::circuit::{CircuitConfig, FriSoundnessProfile, PROD_FRI_OPERATIONAL_FLOOR_BITS};
use p3_goldilocks::Goldilocks;

/// A polynomial's value.
fn value(e: &Expr, cur: &[u64], nxt: &[u64]) -> Goldilocks {
    match e {
        Expr::Const(c) => Goldilocks::new(*c),
        Expr::Cur(i) => Goldilocks::new(cur[*i]),
        Expr::Next(i) => Goldilocks::new(nxt[*i]),
        Expr::Add(a, b) => value(a, cur, nxt) + value(b, cur, nxt),
        Expr::Sub(a, b) => value(a, cur, nxt) - value(b, cur, nxt),
        Expr::Mul(a, b) => value(a, cur, nxt) * value(b, cur, nxt),
        _ => unreachable!("the chip reads two rows"),
    }
}

/// Whether every constraint but those of the last row holds between two rows.
fn meets(rules: &ConstraintBuilder, cur: &[u64], nxt: &[u64]) -> bool {
    rules.constraints.iter().all(|c| {
        matches!(c.rows, Rows::Last) || value(&c.expr, cur, nxt) == Goldilocks::new(0)
    })
}

#[test]
fn lanes_hold_their_own_words() {
    let events = [
        (3usize, [1, -2, 3, 4]),
        (5, [7, 7, 7, 8]),
        (3, [-9, 10, 11, i32::MIN]),
        (0, [0, 0, 0, 1]),
    ];
    let xr = ref_stripe_xor(&events);
    for lane in 0..64usize {
        let own: Vec<[i32; 4]> =
            events.iter().filter(|(l, _)| *l == lane).map(|(_, w)| *w).collect();
        assert_eq!(xr[lane], ref_x_steps(&[own])[0], "lane {lane}");
    }
}

#[test]
fn reduced_stripes_are_accumulator_xors() {
    let dots = vec![
        vec![[1, 2, 3, 4], [-5, 6, -7, 8], [100, 0, 0, 1]],
        vec![[9, -9, 9, -9], [i32::MAX, 1, 2, 3], [0, 0, 5, 0]],
    ];
    let (_, cells) = ref_accumulate(3, &dots);
    let steps = ref_x_steps(&cells);
    for s in 0..2 {
        let (acc, _) = ref_accumulate(3, &dots[..s + 1]);
        assert_eq!(steps[s], ref_xstep(&acc), "stripe {s}");
    }
}

#[test]
fn zero_columns_meet_the_tile_rules() {
    let mut rules = ConstraintBuilder::new();
    TileReduceChip::eval_composite(&mut rules);
    TileAccumChip::eval_composite(&mut rules);
    StripeXorChip::eval_composite(&mut rules);
    let width = ai_pow_zk::composite_layout::TOTAL_TRACE_WIDTH;
    let zero = vec![0u64; width];
    assert!(meets(&rules, &zero, &zero));
    let off = TileReduceChip::composite_offsets();
    let mut busy = zero.clone();
    busy[off.in_cells] = 17;
    busy[off.in_bits + 3] = 5;
    assert!(meets(&rules, &busy, &zero), "idle rows leave the inputs free");
    busy[off.is_active] = 1;
    assert!(!meets(&rules, &busy, &zero));
}

#[test]
fn production_profiles_are_admissible() {
    for bits in 5..30usize {
        for degree in 1..=4u32 {
            let len = 1usize << bits;
            let config = CircuitConfig::for_layer0_trace(len);
            let profile = FriSoundnessProfile::from_circuit_config(config, degree, len);
            assert_eq!(profile.validate(PROD_FRI_OPERATIONAL_FLOOR_BITS), Ok(()));
        }
    }
}
