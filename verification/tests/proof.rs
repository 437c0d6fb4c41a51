use ai_pow_zk::composite_full_air::ProgramShapeError;
use ai_pow_zk::composite_proof::{
    hash_jackpot_le_bytes, le_u256_le, pow_verdict, CompositeVerificationError, PowVerifyError,
};

#[test]
fn hash_jackpot_le_bytes_is_blake3_digest_order() {
    let hj: [u32; 8] = [
        0x04030201, 0x08070605, 0x0C0B0A09, 0x100F0E0D, 0xEFBEADDE, 0xCEFAEDFE, 0xBEBAFECA,
        0x78563412,
    ];
    let bytes = hash_jackpot_le_bytes(&hj);
    assert_eq!(&bytes[0..4], &[0x01, 0x02, 0x03, 0x04]);
    assert_eq!(&bytes[28..32], &[0x12, 0x34, 0x56, 0x78]);
    let back: [u32; 8] = core::array::from_fn(|i| {
        u32::from_le_bytes([bytes[i * 4], bytes[i * 4 + 1], bytes[i * 4 + 2], bytes[i * 4 + 3]])
    });
    assert_eq!(back, hj);
}

/// The difficulty part of the check, behind a proof that holds.
#[test]
fn c2_difficulty_check_pass_and_fail() {
    let zero = [0u32; 8];
    assert!(pow_verdict(Ok(()), &zero, &[0xFFu8; 32]).is_ok(), "zero clears a max target");
    assert!(pow_verdict(Ok(()), &zero, &[0u8; 32]).is_ok(), "0 <= 0 is a pass");
    let big = [0xFFFF_FFFFu32; 8];
    let mut tiny = [0u8; 32];
    tiny[0] = 1;
    match pow_verdict(Ok(()), &big, &tiny) {
        Err(PowVerifyError::DifficultyNotMet) => {}
        other => panic!("expected DifficultyNotMet, got {other:?}"),
    }
}

#[test]
fn failed_proof_comes_first() {
    let r = pow_verdict(
        Err(CompositeVerificationError::Stark(String::from("bad opening"))),
        &[0; 8],
        &[0xFF; 32],
    );
    assert!(matches!(
        r,
        Err(PowVerifyError::Stark(CompositeVerificationError::Stark(e))) if e == "bad opening"
    ));
    let shape = ProgramShapeError::HeightNotPowerOfTwo { height: 3 };
    let r = pow_verdict(
        Err(CompositeVerificationError::InvalidProgram(shape)),
        &[u32::MAX; 8],
        &[0; 32],
    );
    assert!(matches!(
        r,
        Err(PowVerifyError::Stark(CompositeVerificationError::InvalidProgram(
            ProgramShapeError::HeightNotPowerOfTwo { height: 3 }
        )))
    ));
}

#[test]
fn comparison_is_by_most_significant_byte() {
    let mut a = [0u8; 32];
    let mut b = [0u8; 32];
    a[0] = 255;
    b[1] = 1;
    assert!(le_u256_le(&a, &b));
    assert!(!le_u256_le(&b, &a));
    assert!(le_u256_le(&a, &a));
    a[31] = 2;
    b[31] = 1;
    assert!(!le_u256_le(&a, &b));
    assert!(le_u256_le(&b, &a));
}

#[test]
fn target_is_met_exactly_at_the_digest() {
    let digest: [u32; 8] = [1, 2, 3, 4, 5, 6, 7, 8];
    let mut target = hash_jackpot_le_bytes(&digest);
    assert!(pow_verdict(Ok(()), &digest, &target).is_ok());
    target[0] -= 1;
    assert!(matches!(
        pow_verdict(Ok(()), &digest, &target),
        Err(PowVerifyError::DifficultyNotMet)
    ));
}
