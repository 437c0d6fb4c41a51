//! The jackpot update on plain words.

use vstd::prelude::*;

use crate::bits::{bit, rotl13};
use crate::composite_layout::{JACKPOT_SIZE, LROT_PER_TILE};

verus! {

/// A slot rotated left by thirteen and folded with a word.
pub fn rotate_xor_13(v: u32, x: u32) -> (r: u32)
    ensures
        r == rotl13(v) ^ x,
{
    ((v << LROT_PER_TILE) | (v >> (32 - LROT_PER_TILE))) ^ x
}

/// The state after one step: the selected slot is updated where the step is
/// active, the others never change.
pub open spec fn jackpot_step(state: Seq<u32>, slot: int, x: u32, active: bool) -> Seq<u32> {
    if active {
        state.update(slot, rotl13(state[slot]) ^ x)
    } else {
        state
    }
}

/// Applies one step to the state.
pub fn apply_jackpot_step(
    state: &[u32; JACKPOT_SIZE],
    selected_slot: usize,
    x: u32,
    is_active: bool,
) -> (next: [u32; JACKPOT_SIZE])
    requires
        is_active ==> selected_slot < JACKPOT_SIZE,
    ensures
        next@ == jackpot_step(state@, selected_slot as int, x, is_active),
{
    let mut next: [u32; JACKPOT_SIZE] = *state;
    if is_active {
        next[selected_slot] = rotate_xor_13(state[selected_slot], x);
    }
    next
}

/// The selected slot as a unit vector.
pub fn one_hot_select(selected_slot: usize) -> (out: [u32; JACKPOT_SIZE])
    requires
        selected_slot < JACKPOT_SIZE,
    ensures
        forall|i: int|
            0 <= i < 16 ==> #[trigger] out@[i] == if i == selected_slot {
                1u32
            } else {
                0u32
            },
{
    let mut out: [u32; JACKPOT_SIZE] = [0u32;16];
    out[selected_slot] = 1;
    out
}

/// The bits of a word, least significant first.
pub fn bit_decompose_u32(v: u32) -> (bits: [u32; 32])
    ensures
        forall|i: int| 0 <= i < 32 ==> #[trigger] bits@[i] == bit(v, i),
{
    let mut bits: [u32; 32] = [0u32;32];
    let mut i: usize = 0;
    while i < 32
        invariant
            i <= 32,
            forall|k: int| 0 <= k < i ==> #[trigger] bits@[k] == bit(v, k),
        decreases 32 - i,
    {
        bits[i] = (v >> (i as u32)) & 1;
        i = i + 1;
    }
    bits
}

/// Distinct slot values stay distinct under the same update, and distinct
/// words give distinct results.
pub proof fn update_is_injective(v1: u32, v2: u32, x1: u32, x2: u32)
    ensures
        rotl13(v1) ^ x1 == rotl13(v2) ^ x1 ==> v1 == v2,
        rotl13(v1) ^ x1 == rotl13(v1) ^ x2 ==> x1 == x2,
{
    assert(((v1 << 13) | (v1 >> 19)) ^ x1 == ((v2 << 13) | (v2 >> 19)) ^ x1 ==> v1 == v2)
        by (bit_vector);
    assert(((v1 << 13) | (v1 >> 19)) ^ x1 == ((v1 << 13) | (v1 >> 19)) ^ x2 ==> x1 == x2)
        by (bit_vector);
}

/// A step changes at most its own slot, and that one only where it is active:
/// to the slot's word rotated left by thirteen and folded with the step's word.
pub proof fn step_changes_its_slot_alone(
    state: Seq<u32>,
    slot: int,
    x: u32,
    active: bool,
    i: int,
)
    requires
        0 <= slot < state.len(),
        0 <= i < state.len(),
    ensures
        jackpot_step(state, slot, x, active).len() == state.len(),
        jackpot_step(state, slot, x, active)[i] == if active && i == slot {
            ((state[i] << 13) | (state[i] >> 19)) ^ x
        } else {
            state[i]
        },
{
}

} // verus!
