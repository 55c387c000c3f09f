use secp256k1_core::field::Zp;
use secp256k1_core::params::p_u256;
use secp256k1_core::u256::U256;

fn zp(v: u64) -> Zp {
    Zp::checked_from(U256::from_u64(v)).unwrap()
}

fn p_minus_1() -> Zp {
    Zp::checked_from(U256::from_words(
        0xFFFFFFFFFFFFFFFF,
        0xFFFFFFFFFFFFFFFF,
        0xFFFFFFFFFFFFFFFF,
        0xFFFFFFFEFFFFFC2E,
    ))
    .unwrap()
}

#[test]
fn wraparound_add_and_sub() {
    assert_eq!(p_minus_1().add(zp(1)), Zp::zero());
    assert_eq!(Zp::zero().sub(zp(1)), p_minus_1());
}

#[test]
fn checked_from_rejects_p() {
    assert_eq!(Zp::checked_from(p_u256()), None);
    assert!(Zp::checked_from(U256::from_u64(0)).is_some());
}

#[test]
fn wrapping_from_reduces_p_to_zero() {
    assert_eq!(Zp::wrapping_from(p_u256()), Zp::zero());
    assert_eq!(Zp::wrapping_from(U256::from_u64(9)), zp(9));
}

#[test]
fn small_products() {
    assert_eq!(zp(7).mul(zp(6)), zp(42));
    assert_eq!(zp(7).mul_u64(6), zp(42));
    assert_eq!(zp(7).mul_u256(U256::from_u64(6)), zp(42));
}

#[test]
fn field_inverse_round_trip() {
    let x = zp(42);
    assert_eq!(x.mul(x.multiplicative_inverse()), zp(1));
}

#[test]
fn division_undoes_multiplication() {
    let a = zp(1234567);
    let b = zp(89);
    assert_eq!(a.mul(b).div(b), a);
}

#[test]
fn negation() {
    assert_eq!(Zp::zero().neg(), Zp::zero());
    assert_eq!(zp(1).neg(), p_minus_1());
    assert_eq!(zp(5).neg().add(zp(5)), Zp::zero());
}

#[test]
fn is_zero_checks_the_residue() {
    assert!(Zp::zero().is_zero());
    assert!(!zp(3).is_zero());
}

#[test]
fn wrapping_from_max_value() {
    let max = U256::from_words(
        0xFFFFFFFFFFFFFFFF,
        0xFFFFFFFFFFFFFFFF,
        0xFFFFFFFFFFFFFFFF,
        0xFFFFFFFFFFFFFFFF,
    );
    // 2^256 - 1 - p == 2^32 + 976
    assert_eq!(Zp::wrapping_from(max), zp(0x1000003D0));
}
