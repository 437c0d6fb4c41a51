//! Bit decompositions: 32-bit words, their bits, and cells that hold them.

use vstd::arithmetic::power::*;
use vstd::arithmetic::power2::*;
use vstd::prelude::*;

use crate::air::{polyval, sum_cells};

verus! {

/// The bit of a word at a position, least significant first.
pub open spec fn bit(v: u32, i: int) -> int {
    ((v >> (i as u32)) & 1) as int
}

/// The cells `start..start + n` are `0` or `1`.
pub open spec fn boolean_cells(s: Seq<u64>, start: int, n: int) -> bool {
    forall|j: int| start <= j < start + n ==> (#[trigger] s[j] == 0 || s[j] == 1)
}

/// The cells `at..at + 32` hold the bits of a word, least significant first.
pub open spec fn has_bits(s: Seq<u64>, at: int, v: u32) -> bool {
    forall|j: int| at <= j < at + 32 ==> (#[trigger] s[j]) == bit(v, j - at)
}

/// The word whose bits the 32 cells from `at` on hold.
pub open spec fn word_at(s: Seq<u64>, at: int) -> u32 {
    polyval(s, at, 32, 2) as u32
}

/// A bit is `0` or `1`.
pub proof fn lemma_bit_bound(v: u32, i: int)
    ensures
        bit(v, i) == 0 || bit(v, i) == 1,
{
    let k = i as u32;
    assert((v >> k) & 1 == 0 || (v >> k) & 1 == 1) by (bit_vector);
}

/// A power of two as a shift.
proof fn lemma_shift_is_pow(n: u64)
    requires
        n < 64,
    ensures
        (1u64 << n) as int == pow(2, n as nat),
{
    vstd::bits::lemma_u64_pow2_no_overflow(n as nat);
    vstd::bits::lemma_u64_shl_is_mul(1, n);
    lemma_pow2(n as nat);
}

/// The low bits of a word, as the value of the cells that hold them.
pub proof fn lemma_low_bits(s: Seq<u64>, at: int, v: u32, n: nat)
    requires
        n <= 32,
        forall|j: int| at <= j < at + n ==> (#[trigger] s[j]) == bit(v, j - at),
    ensures
        polyval(s, at, n, 2) == ((v as u64) & (((1u64 << (n as u64)) - 1) as u64)) as int,
    decreases n,
{
    let x = v as u64;
    if n == 0 {
        assert(x & (((1u64 << 0u64) - 1) as u64) == 0) by (bit_vector);
    } else {
        let m = (n - 1) as u64;
        lemma_low_bits(s, at, v, (n - 1) as nat);
        lemma_shift_is_pow(m);
        let b = (x >> m) & 1;
        assert(x & (((1u64 << ((m + 1) as u64)) - 1) as u64) == (x & (((1u64 << m) - 1) as u64))
            + b * (1u64 << m)) by (bit_vector)
            requires
                m < 32,
                b == (x >> m) & 1,
        ;
        let k = m as u32;
        assert(((v >> k) & 1) as u64 == ((v as u64) >> (k as u64)) & 1) by (bit_vector)
            requires
                k < 32,
        ;
        assert(s[at + m] == bit(v, m as int));
        assert(s[at + m] == b);
        assert(s[at + n - 1] * pow(2, (n - 1) as nat) == b * (1u64 << m));
    }
}

/// Cells that hold the bits of a word evaluate to the word.
pub proof fn lemma_bits_value(s: Seq<u64>, at: int, v: u32)
    requires
        has_bits(s, at, v),
    ensures
        polyval(s, at, 32, 2) == v,
{
    lemma_low_bits(s, at, v, 32);
    assert((v as u64) & (((1u64 << 32u64) - 1) as u64) == v as u64) by (bit_vector);
}

/// The bits of the value of the first cells are the cells.
pub proof fn lemma_cells_prefix(s: Seq<u64>, at: int, n: nat)
    requires
        n <= 32,
        boolean_cells(s, at, n as int),
    ensures
        0 <= polyval(s, at, n, 2) < pow(2, n),
        pow(2, n) <= 0x1_0000_0000,
        forall|i: u64|
            i < n ==> (#[trigger] ((polyval(s, at, n, 2) as u64) >> i)) & 1 == s[at + i as int],
    decreases n,
{
    if n == 0 {
        lemma_pow0(2);
    } else {
        let m = (n - 1) as u64;
        lemma_cells_prefix(s, at, m as nat);
        lemma_shift_is_pow(m);
        lemma_shift_is_pow(n as u64);
        let x = polyval(s, at, m as nat, 2) as u64;
        let c = s[at + m];
        let y = polyval(s, at, n, 2) as u64;
        assert((1u64 << ((m + 1) as u64)) <= 0x1_0000_0000 && (1u64 << ((m + 1) as u64)) == 2 * (
        1u64 << m)) by (bit_vector)
            requires
                m < 32,
        ;
        assert(c * (1u64 << m) <= 1u64 << m) by (nonlinear_arith)
            requires
                c <= 1,
        ;
        assert(polyval(s, at, n, 2) == x + c * (1u64 << m));
        assert(y == x + c * (1u64 << m));
        assert forall|i: u64| i < n implies (#[trigger] (y >> i)) & 1 == s[at + i as int] by {
            assert((y >> i) & 1 == if i < m {
                (x >> i) & 1
            } else {
                c
            }) by (bit_vector)
                requires
                    m < 32,
                    i <= m,
                    c <= 1,
                    x < (1u64 << m),
                    y == x + c * (1u64 << m),
            ;
            if i < m {
                assert((x >> i) & 1 == s[at + i as int]);
            }
        }
    }
}

/// Thirty-two boolean cells hold the bits of the word they evaluate to.
pub proof fn lemma_cells_word(s: Seq<u64>, at: int)
    requires
        boolean_cells(s, at, 32),
    ensures
        0 <= polyval(s, at, 32, 2) < 0x1_0000_0000,
        word_at(s, at) == polyval(s, at, 32, 2),
        has_bits(s, at, word_at(s, at)),
{
    lemma_cells_prefix(s, at, 32);
    let x = polyval(s, at, 32, 2) as u64;
    let v = word_at(s, at);
    assert(v as u64 == x);
    assert forall|j: int| at <= j < at + 32 implies (#[trigger] s[j]) == bit(v, j - at) by {
        let i = (j - at) as u64;
        assert((x >> i) & 1 == s[at + i as int]);
        let k = i as u32;
        assert(((v >> k) & 1) as u64 == (x >> i) & 1) by (bit_vector)
            requires
                k < 32,
                i == k as u64,
                x == v as u64,
        ;
    }
}

/// The cells that hold a word's bits are boolean.
pub proof fn lemma_bits_boolean(s: Seq<u64>, at: int, v: u32)
    requires
        has_bits(s, at, v),
    ensures
        boolean_cells(s, at, 32),
{
    assert forall|j: int| at <= j < at + 32 implies (#[trigger] s[j] == 0 || s[j] == 1) by {
        lemma_bit_bound(v, j - at);
    }
}

/// Words with equal bits are equal.
pub proof fn lemma_bits_determine(a: u32, b: u32)
    requires
        forall|i: int| 0 <= i < 32 ==> #[trigger] bit(a, i) == bit(b, i),
    ensures
        a == b,
{
    let s = Seq::new(32, |i: int| bit(a, i) as u64);
    assert forall|j: int| 0 <= j < 0 + 32 implies (#[trigger] s[j]) == bit(a, j - 0) && s[j]
        == bit(b, j - 0) by {
        lemma_bit_bound(a, j);
        assert(bit(a, j) == bit(b, j));
    }
    lemma_bits_value(s, 0, a);
    lemma_bits_value(s, 0, b);
}

/// The bit of an exclusive or is the parity of the bits.
pub proof fn lemma_xor_bit(a: u32, b: u32, i: int)
    ensures
        bit(a ^ b, i) == (bit(a, i) + bit(b, i)) % 2,
{
    let k = i as u32;
    assert(((a ^ b) >> k) & 1 == (((a >> k) & 1) + ((b >> k) & 1)) % 2) by (bit_vector);
}

/// Exclusive or with zero, with itself, and its symmetry.
pub proof fn lemma_xor_algebra(a: u32, b: u32, c: u32)
    ensures
        a ^ 0 == a,
        0 ^ a == a,
        a ^ a == 0,
        a ^ b == b ^ a,
        (a ^ b) ^ c == a ^ (b ^ c),
{
    assert(a ^ 0 == a && 0 ^ a == a && a ^ a == 0 && a ^ b == b ^ a && (a ^ b) ^ c == a ^ (b ^ c))
        by (bit_vector);
}

/// The bits of zero.
pub proof fn lemma_zero_bit(i: int)
    ensures
        bit(0, i) == 0,
{
    let k = i as u32;
    assert((0u32 >> k) & 1 == 0) by (bit_vector);
}

/// The two's-complement reading of a signed word.
pub proof fn lemma_signed_word(v: i32)
    ensures
        v == (v as u32) - bit(v as u32, 31) * 0x1_0000_0000,
{
    let u = v as u32;
    assert(u >> 31 == if v < 0 {
        1u32
    } else {
        0u32
    }) by (bit_vector)
        requires
            u == v as u32,
    ;
    assert((u >> 31) & 1 == u >> 31) by (bit_vector);
    assert(v >= 0 ==> u as int == v) by (bit_vector)
        requires
            u == v as u32,
    ;
    assert(v < 0 ==> u as int == v + 0x1_0000_0000) by (bit_vector)
        requires
            u == v as u32,
    ;
}

/// A signed word is determined by its bits.
pub proof fn lemma_word_signed(u: u32)
    ensures
        (u as i32) as u32 == u,
        (u as i32) == u - bit(u, 31) * 0x1_0000_0000,
{
    assert((u as i32) as u32 == u) by (bit_vector);
    lemma_signed_word(u as i32);
}

/// The exclusive or of signed words, as unsigned bit patterns.
pub open spec fn xor_fold(s: Seq<i32>) -> u32
    decreases s.len(),
{
    if s.len() == 0 {
        0
    } else {
        xor_fold(s.drop_last()) ^ (s.last() as u32)
    }
}

/// How many of the words have a bit set.
pub open spec fn bit_count(s: Seq<i32>, i: int) -> int
    decreases s.len(),
{
    if s.len() == 0 {
        0
    } else {
        bit_count(s.drop_last(), i) + bit(s.last() as u32, i)
    }
}

/// A bit of the exclusive or of some words is the parity of how many of them
/// have it set.
pub proof fn lemma_xor_fold_parity(s: Seq<i32>, i: int)
    ensures
        bit(xor_fold(s), i) == bit_count(s, i) % 2,
        0 <= bit_count(s, i) <= s.len(),
    decreases s.len(),
{
    if s.len() == 0 {
        lemma_zero_bit(i);
    } else {
        lemma_xor_fold_parity(s.drop_last(), i);
        lemma_xor_bit(xor_fold(s.drop_last()), s.last() as u32, i);
        lemma_bit_bound(s.last() as u32, i);
    }
}

/// The exclusive or of a concatenation.
pub proof fn lemma_xor_fold_concat(s: Seq<i32>, t: Seq<i32>)
    ensures
        xor_fold(s + t) == xor_fold(s) ^ xor_fold(t),
    decreases t.len(),
{
    if t.len() == 0 {
        assert(s + t =~= s);
        lemma_xor_algebra(xor_fold(s), 0, 0);
    } else {
        assert((s + t).drop_last() =~= s + t.drop_last());
        lemma_xor_fold_concat(s, t.drop_last());
        lemma_xor_algebra(xor_fold(s), xor_fold(t.drop_last()), t.last() as u32);
    }
}

/// The first words of a list, folded.
pub proof fn lemma_xor_fold_step(s: Seq<i32>, n: int)
    requires
        0 <= n < s.len(),
    ensures
        xor_fold(s.take(n + 1)) == xor_fold(s.take(n)) ^ (s[n] as u32),
{
    assert(s.take(n + 1).drop_last() =~= s.take(n));
}

/// A word rotated left by thirteen positions.
pub open spec fn rotl13(v: u32) -> u32 {
    (v << 13) | (v >> 19)
}

/// Where each bit of the rotation comes from.
pub proof fn lemma_rotl13_bit(v: u32, i: int)
    requires
        0 <= i < 32,
    ensures
        bit(rotl13(v), i) == bit(v, (i + 19) % 32),
{
    let k = i as u32;
    let m = ((i + 19) % 32) as u32;
    assert((((v << 13) | (v >> 19)) >> k) & 1 == (v >> m) & 1) by (bit_vector)
        requires
            k < 32,
            m == (k + 19) % 32,
    ;
}

/// The sum of boolean cells.
pub proof fn lemma_sum_cells_bound(s: Seq<u64>, start: int, n: nat)
    requires
        boolean_cells(s, start, n as int),
    ensures
        0 <= sum_cells(s, start, n) <= n,
    decreases n,
{
    if n > 0 {
        lemma_sum_cells_bound(s, start, (n - 1) as nat);
        assert(s[start + n - 1] == 0 || s[start + n - 1] == 1);
    }
}

} // verus!
