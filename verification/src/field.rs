//! The Goldilocks field, as canonical `u64` representatives.

use p3_field::integers::QuotientMap;
use p3_field::PrimeField64;
use p3_goldilocks::Goldilocks;
use vstd::prelude::*;

verus! {

/// One trace cell: the canonical representative of a Goldilocks element.
pub type Val = u64;

/// The Goldilocks prime `2^64 - 2^32 + 1`.
pub const GOLDILOCKS_P: u64 = 0xFFFF_FFFF_0000_0001;

/// The Goldilocks prime as a mathematical integer.
pub open spec fn p() -> int {
    0xFFFF_FFFF_0000_0001
}

/// The canonical representative of an integer: its residue in `0..p`.
pub open spec fn enc(x: int) -> int {
    x % p()
}

/// `x` is the zero of the field.
pub open spec fn is_zero(x: int) -> bool {
    x % p() == 0
}

/// `x` and `y` are the same field element.
pub open spec fn feq(x: int, y: int) -> bool {
    is_zero(x - y)
}

/// Every cell of `s` is a canonical representative.
pub open spec fn canonical(s: Seq<u64>) -> bool {
    forall|i: int| 0 <= i < s.len() ==> (#[trigger] s[i]) < p()
}

/// The signed word that a canonical representative stands for: representatives
/// above half the modulus stand for negative integers.
pub open spec fn decode_i32(x: u64) -> i32 {
    if x > p() / 2 {
        (x - p()) as i32
    } else {
        x as i32
    }
}

/// `Goldilocks::from_int` on a `u64`, read back with `as_canonical_u64`: the
/// residue of the integer modulo the field's order.
#[verifier::external_body]
pub(crate) fn val_from_u64(x: u64) -> (r: u64)
    ensures
        r == enc(x as int),
{
    <Goldilocks as QuotientMap<u64>>::from_int(x).as_canonical_u64()
}

/// `Goldilocks::from_int` on an `i64`, read back with `as_canonical_u64`: the
/// residue of the integer modulo the field's order, negative integers
/// standing for their additive inverses.
#[verifier::external_body]
pub(crate) fn val_from_i64(x: i64) -> (r: u64)
    ensures
        r == enc(x as int),
{
    <Goldilocks as QuotientMap<i64>>::from_int(x).as_canonical_u64()
}

/// Two canonical representatives of one field element are equal.
pub proof fn lemma_feq_canonical(x: int, y: int)
    requires
        0 <= x < p(),
        0 <= y < p(),
        feq(x, y),
    ensures
        x == y,
{
    if x >= y {
        vstd::arithmetic::div_mod::lemma_small_mod((x - y) as nat, p() as nat);
    } else {
        vstd::arithmetic::div_mod::lemma_mod_neg_neg(y - x, p());
        vstd::arithmetic::div_mod::lemma_small_mod((y - x) as nat, p() as nat);
        assert((-1 * (y - x)) == x - y) by (nonlinear_arith);
    }
}

/// Field equality is a congruence: adding equal elements.
pub proof fn lemma_zero_add(x: int, y: int)
    requires
        is_zero(x),
        is_zero(y),
    ensures
        is_zero(x + y),
        is_zero(x - y),
{
    vstd::arithmetic::div_mod::lemma_add_mod_noop(x, y, p());
    vstd::arithmetic::div_mod::lemma_sub_mod_noop(x, y, p());
}

/// A multiple of a zero is zero.
pub proof fn lemma_zero_mul(x: int, k: int)
    requires
        is_zero(x),
    ensures
        is_zero(x * k),
        is_zero(k * x),
{
    vstd::arithmetic::div_mod::lemma_mul_mod_noop_left(x, k, p());
    assert(x * k == k * x) by (nonlinear_arith);
    assert((0 * k) == 0);
}

/// An integer and its residue are the same field element.
pub proof fn lemma_enc_feq(x: int)
    ensures
        0 <= enc(x) < p(),
        feq(enc(x), x),
        feq(x, enc(x)),
{
    assert(p() > 0);
    vstd::arithmetic::div_mod::lemma_mod_bound(x, p());
    vstd::arithmetic::div_mod::lemma_fundamental_div_mod(x, p());
    let q = x / p();
    assert(x == p() * q + enc(x));
    vstd::arithmetic::div_mod::lemma_mod_multiples_basic(q, p());
    vstd::arithmetic::div_mod::lemma_mod_multiples_basic(-q, p());
    assert(x - enc(x) == q * p()) by (nonlinear_arith)
        requires
            x == p() * q + enc(x),
    ;
    assert(enc(x) - x == (-q) * p()) by (nonlinear_arith)
        requires
            x == p() * q + enc(x),
    ;
}

/// Decoding a signed word's field element gives the word back, so distinct
/// words have distinct field elements.
pub proof fn decode_inverts_encode(v: i32)
    ensures
        0 <= enc(v as int) < p(),
        decode_i32(enc(v as int) as u64) == v,
{
    lemma_enc_i32(v);
}

/// The field element of a signed word.
pub proof fn lemma_enc_i32(v: i32)
    ensures
        enc(v as int) == if v >= 0 {
            v as int
        } else {
            v + p()
        },
{
    if v >= 0 {
        vstd::arithmetic::div_mod::lemma_small_mod(v as nat, p() as nat);
    } else {
        vstd::arithmetic::div_mod::lemma_mod_add_multiples_vanish(v as int, p());
        vstd::arithmetic::div_mod::lemma_small_mod((v + p()) as nat, p() as nat);
    }
}

/// The field element of an unsigned integer below the modulus is the integer.
pub proof fn lemma_enc_small(x: int)
    requires
        0 <= x < p(),
    ensures
        enc(x) == x,
{
    vstd::arithmetic::div_mod::lemma_small_mod(x as nat, p() as nat);
}

/// A vanishing integer of small magnitude is zero.
pub proof fn lemma_zero_small(x: int)
    requires
        -p() < x < p(),
        is_zero(x),
    ensures
        x == 0,
{
    if x >= 0 {
        lemma_feq_canonical(x, 0);
    } else {
        lemma_feq_canonical(0, -x);
    }
}

} // verus!
