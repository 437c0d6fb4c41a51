//! The verdict on a proof of work: the proof must hold, and the digest that it
//! proves must clear the target.

use vstd::arithmetic::power::*;
use vstd::prelude::*;

use crate::composite_full_air::ProgramShapeError;

verus! {

/// Why the underlying proof does not hold.
#[derive(Debug)]
pub enum CompositeVerificationError {
    /// The program does not fit the fixed trace.
    InvalidProgram(ProgramShapeError),
    /// The proof failed verification.
    Stark(String),
}

/// Why a proof of work is refused.
#[derive(Debug)]
pub enum PowVerifyError {
    /// The underlying proof does not hold.
    Stark(CompositeVerificationError),
    /// The proof holds, but its digest exceeds the target.
    DifficultyNotMet,
}

/// The number that bytes hold, least significant first.
pub open spec fn le_value(bytes: Seq<u8>, n: nat) -> int
    decreases n,
{
    if n == 0 {
        0
    } else {
        le_value(bytes, (n - 1) as nat) + bytes[n - 1] * pow(256, (n - 1) as nat)
    }
}

/// The number that words hold, least significant first.
pub open spec fn le_word_value(words: Seq<u32>, n: nat) -> int
    decreases n,
{
    if n == 0 {
        0
    } else {
        le_word_value(words, (n - 1) as nat) + words[n - 1] * pow(256, (4 * (n - 1)) as nat)
    }
}

/// A byte of a word, least significant first.
pub open spec fn word_byte(word: u32, j: int) -> u8 {
    ((word >> ((8 * j) as u32)) & 0xff) as u8
}

/// The digest as 32 bytes: each word, least significant byte first.
pub fn hash_jackpot_le_bytes(hash_jackpot: &[u32; 8]) -> (out: [u8; 32])
    ensures
        forall|k: int| 0 <= k < 32 ==> #[trigger] out@[k] == word_byte(hash_jackpot@[k / 4], k % 4),
{
    let mut out: [u8; 32] = [0u8;32];
    let mut k: usize = 0;
    while k < 32
        invariant
            k <= 32,
            forall|i: int|
                0 <= i < k ==> #[trigger] out@[i] == word_byte(hash_jackpot@[i / 4], i % 4),
        decreases 32 - k,
    {
        let word: u32 = hash_jackpot[k / 4];
        let shift: u32 = (8 * (k % 4)) as u32;
        let byte: u32 = (word >> shift) & 0xff;
        out[k] = #[verifier::truncate] (byte as u8);
        k = k + 1;
    }
    out
}

/// The number that the first bytes hold is below the next power.
proof fn lemma_le_value_bound(bytes: Seq<u8>, n: nat)
    ensures
        0 <= le_value(bytes, n) < pow(256, n),
    decreases n,
{
    lemma_pow0(256);
    if n > 0 {
        lemma_le_value_bound(bytes, (n - 1) as nat);
        let q = pow(256, (n - 1) as nat);
        let d = bytes[n - 1] as int;
        lemma_pow_adds(256, (n - 1) as nat, 1);
        lemma_pow1(256);
        assert(0 <= d * q <= 255 * q) by (nonlinear_arith)
            requires
                0 <= d <= 255,
                q >= 0,
        ;
    }
}

/// A smaller digit at the top makes a smaller number.
proof fn lemma_top_digit(a: Seq<u8>, b: Seq<u8>, n: nat)
    requires
        n > 0,
        a[n - 1] < b[n - 1],
    ensures
        le_value(a, n) < le_value(b, n),
{
    lemma_le_value_bound(a, (n - 1) as nat);
    lemma_le_value_bound(b, (n - 1) as nat);
    let q = pow(256, (n - 1) as nat);
    let x = a[n - 1] as int;
    let y = b[n - 1] as int;
    assert(y * q >= x * q + q) by (nonlinear_arith)
        requires
            x + 1 <= y,
            q >= 0,
    ;
}

/// Equal digits above make the order that of the rest.
proof fn lemma_same_above(a: Seq<u8>, b: Seq<u8>, k: nat, n: nat)
    requires
        k <= n,
        forall|i: int| k <= i < n ==> #[trigger] a[i] == b[i],
    ensures
        le_value(a, n) - le_value(b, n) == le_value(a, k) - le_value(b, k),
    decreases n,
{
    if k < n {
        lemma_same_above(a, b, k, (n - 1) as nat);
        assert(a[n - 1] == b[n - 1]);
    }
}

/// Compares two 256-bit numbers given as bytes, least significant first.
pub fn le_u256_le(hash: &[u8; 32], target: &[u8; 32]) -> (r: bool)
    ensures
        r == (le_value(hash@, 32) <= le_value(target@, 32)),
{
    let mut k: usize = 32;
    while k > 0
        invariant
            k <= 32,
            forall|i: int| k <= i < 32 ==> #[trigger] hash@[i] == target@[i],
        decreases k,
    {
        k = k - 1;
        if hash[k] < target[k] {
            proof {
                lemma_same_above(hash@, target@, (k + 1) as nat, 32);
                lemma_top_digit(hash@, target@, (k + 1) as nat);
            }
            return true;
        }
        if hash[k] > target[k] {
            proof {
                lemma_same_above(hash@, target@, (k + 1) as nat, 32);
                lemma_top_digit(target@, hash@, (k + 1) as nat);
            }
            return false;
        }
    }
    proof {
        lemma_same_above(hash@, target@, 0, 32);
    }
    true
}

/// A word is the number that its four bytes hold.
proof fn lemma_word_bytes(word: u32)
    ensures
        word == word_byte(word, 0) + word_byte(word, 1) * 256 + word_byte(word, 2) * 65536
            + word_byte(word, 3) * 16777216,
{
    assert(word == ((word >> 0) & 0xff) + ((word >> 8) & 0xff) * 256 + ((word >> 16) & 0xff) * 65536
        + ((word >> 24) & 0xff) * 16777216) by (bit_vector);
    assert(((word >> 0) & 0xff) <= 255 && ((word >> 8) & 0xff) <= 255 && ((word >> 16) & 0xff)
        <= 255 && ((word >> 24) & 0xff) <= 255) by (bit_vector);
}

/// The bytes of some words hold the same number as the words.
pub proof fn digest_bytes_hold_digest(words: Seq<u32>, bytes: Seq<u8>, n: nat)
    requires
        n <= words.len(),
        bytes.len() == 4 * words.len(),
        forall|k: int|
            0 <= k < bytes.len() ==> #[trigger] bytes[k] == word_byte(words[k / 4], k % 4),
    ensures
        le_value(bytes, 4 * n) == le_word_value(words, n),
    decreases n,
{
    if n > 0 {
        digest_bytes_hold_digest(words, bytes, (n - 1) as nat);
        let m = (4 * (n - 1)) as nat;
        let q = pow(256, m);
        let word = words[n - 1];
        lemma_word_bytes(word);
        lemma_pow1(256);
        lemma_pow_adds(256, m, 1);
        lemma_pow_adds(256, (m + 1) as nat, 1);
        lemma_pow_adds(256, (m + 2) as nat, 1);
        let at = m as int;
        let b0 = bytes[at] as int;
        let b1 = bytes[at + 1] as int;
        let b2 = bytes[at + 2] as int;
        let b3 = bytes[at + 3] as int;
        assert(bytes[at] == word_byte(words[at / 4], at % 4));
        assert(bytes[at + 1] == word_byte(words[(at + 1) / 4], (at + 1) % 4));
        assert(bytes[at + 2] == word_byte(words[(at + 2) / 4], (at + 2) % 4));
        assert(bytes[at + 3] == word_byte(words[(at + 3) / 4], (at + 3) % 4));
        assert(le_value(bytes, (m + 1) as nat) == le_value(bytes, m) + b0 * q);
        assert(le_value(bytes, (m + 2) as nat) == le_value(bytes, (m + 1) as nat) + b1 * pow(
            256,
            (m + 1) as nat,
        ));
        assert(le_value(bytes, (m + 3) as nat) == le_value(bytes, (m + 2) as nat) + b2 * pow(
            256,
            (m + 2) as nat,
        ));
        assert(le_value(bytes, (m + 4) as nat) == le_value(bytes, (m + 3) as nat) + b3 * pow(
            256,
            (m + 3) as nat,
        ));
        assert(b0 * q + b1 * (q * 256) + b2 * (q * 256 * 256) + b3 * (q * 256 * 256 * 256)
            == word * q) by (nonlinear_arith)
            requires
                word == b0 + b1 * 256 + b2 * 65536 + b3 * 16777216,
        ;
    }
}

/// The verdict on a proof of work, from the verdict on the proof and the
/// digest that it proves. The proof comes first; the digest clears the target
/// where it is no larger, as a 256-bit number.
pub fn pow_verdict(
    stark: Result<(), CompositeVerificationError>,
    hash_jackpot: &[u32; 8],
    target: &[u8; 32],
) -> (r: Result<(), PowVerifyError>)
    ensures
        r is Ok <==> stark is Ok && le_word_value(hash_jackpot@, 8) <= le_value(target@, 32),
        stark matches Err(e) ==> r == Err::<(), PowVerifyError>(PowVerifyError::Stark(e)),
        stark is Ok && le_word_value(hash_jackpot@, 8) > le_value(target@, 32) ==> r == Err::<
            (),
            PowVerifyError,
        >(PowVerifyError::DifficultyNotMet),
{
    match stark {
        Err(e) => Err(PowVerifyError::Stark(e)),
        Ok(()) => {
            let bytes = hash_jackpot_le_bytes(hash_jackpot);
            proof {
                digest_bytes_hold_digest(hash_jackpot@, bytes@, 8);
            }
            if le_u256_le(&bytes, target) {
                Ok(())
            } else {
                Err(PowVerifyError::DifficultyNotMet)
            }
        },
    }
}

/// The most significant byte in which two numbers differ decides their order.
pub proof fn higher_byte_decides(a: Seq<u8>, b: Seq<u8>, k: int)
    requires
        0 <= k < 32,
        a[k] < b[k],
        forall|i: int| k < i < 32 ==> #[trigger] a[i] == b[i],
    ensures
        le_value(a, 32) < le_value(b, 32),
{
    lemma_same_above(a, b, (k + 1) as nat, 32);
    lemma_top_digit(a, b, (k + 1) as nat);
}

/// Digests are ordered by the most significant word in which they differ, and
/// equal digests are equal numbers.
pub proof fn higher_word_decides(a: Seq<u32>, b: Seq<u32>, k: int)
    requires
        0 <= k < 8,
        a[k] < b[k],
        forall|i: int| k < i < 8 ==> #[trigger] a[i] == b[i],
    ensures
        le_word_value(a, 8) < le_word_value(b, 8),
{
    lemma_words_above(a, b, (k + 1) as nat, 8);
    lemma_word_bound(a, k as nat);
    lemma_word_bound(b, k as nat);
    let q = pow(256, (4 * k) as nat);
    let x = a[k] as int;
    let y = b[k] as int;
    assert(y * q >= x * q + q) by (nonlinear_arith)
        requires
            x + 1 <= y,
            q >= 0,
    ;
}

/// Equal words above make the order that of the rest.
proof fn lemma_words_above(a: Seq<u32>, b: Seq<u32>, k: nat, n: nat)
    requires
        k <= n,
        forall|i: int| k <= i < n ==> #[trigger] a[i] == b[i],
    ensures
        le_word_value(a, n) - le_word_value(b, n) == le_word_value(a, k) - le_word_value(b, k),
    decreases n,
{
    if k < n {
        lemma_words_above(a, b, k, (n - 1) as nat);
        assert(a[n - 1] == b[n - 1]);
    }
}

/// The number that the first words hold is below the next power.
proof fn lemma_word_bound(words: Seq<u32>, n: nat)
    ensures
        0 <= le_word_value(words, n) < pow(256, 4 * n),
    decreases n,
{
    lemma_pow0(256);
    if n > 0 {
        lemma_word_bound(words, (n - 1) as nat);
        let q = pow(256, (4 * (n - 1)) as nat);
        let d = words[n - 1] as int;
        lemma_pow_adds(256, (4 * (n - 1)) as nat, 4);
        lemma_pow1(256);
        lemma_pow_adds(256, 1, 1);
        lemma_pow_adds(256, 2, 1);
        lemma_pow_adds(256, 3, 1);
        assert(pow(256, 2) == 65536);
        assert(pow(256, 3) == 16777216);
        assert(pow(256, 4) == 0x1_0000_0000);
        assert(0 <= d * q <= 0xffff_ffff * q) by (nonlinear_arith)
            requires
                0 <= d <= 0xffff_ffff,
                q >= 0,
        ;
        assert(4 * (n - 1) + 4 == 4 * n);
        assert(pow(256, 4 * n) == q * 0x1_0000_0000);
        assert(le_word_value(words, n) == le_word_value(words, (n - 1) as nat) + d * q);
    }
}

/// The bytes of a digest are its words, each with its least significant byte
/// first.
pub proof fn digest_bytes_rebuild_words(words: Seq<u32>, bytes: Seq<u8>, i: int)
    requires
        0 <= i < 8,
        forall|k: int| 0 <= k < 32 ==> #[trigger] bytes[k] == word_byte(words[k / 4], k % 4),
    ensures
        words[i] == bytes[4 * i] + 256 * bytes[4 * i + 1] + 65536 * bytes[4 * i + 2] + 16777216
            * bytes[4 * i + 3],
{
    lemma_word_bytes(words[i]);
    assert(bytes[4 * i] == word_byte(words[(4 * i) / 4], (4 * i) % 4));
    assert(bytes[4 * i + 1] == word_byte(words[(4 * i + 1) / 4], (4 * i + 1) % 4));
    assert(bytes[4 * i + 2] == word_byte(words[(4 * i + 2) / 4], (4 * i + 2) % 4));
    assert(bytes[4 * i + 3] == word_byte(words[(4 * i + 3) / 4], (4 * i + 3) % 4));
}

} // verus!
