use secp256k1_core::params::order_u256;
use secp256k1_core::point::Point;
use secp256k1_core::u256::U256;
use secp256k1_core::field::Zp;

fn word_point(xa: u64, xb: u64, xc: u64, xd: u64, ya: u64, yb: u64, yc: u64, yd: u64) -> Point {
    let x = Zp::checked_from(U256::from_words(xa, xb, xc, xd)).unwrap();
    let y = Zp::checked_from(U256::from_words(ya, yb, yc, yd)).unwrap();
    Point::new(x, y).unwrap()
}

fn base_point() -> Point {
    word_point(
        0x79BE667EF9DCBBAC,
        0x55A06295CE870B07,
        0x029BFCDB2DCE28D9,
        0x59F2815B16F81798,
        0x483ADA7726A3C465,
        0x5DA4FBFC0E1108A8,
        0xFD17B448A6855419,
        0x9C47D08FFB10D4B8,
    )
}

#[test]
fn g_is_on_curve() {
    let g = Point::generator();
    assert_eq!(Point::new(g.x(), g.y()), Some(g));
}

#[test]
fn p_is_on_curve() {
    let p = base_point();
    assert_eq!(Point::new(p.x(), p.y()), Some(p));
}

#[test]
fn curve_order() {
    assert!(Point::generator().mul_u256(order_u256()).is_at_infinity());
}

#[test]
fn distributive() {
    let g = Point::generator();
    assert_eq!(g.mul_u64(42 + 47), g.mul_u64(42).add(g.mul_u64(47)));
}

#[test]
fn double_is_mul_2() {
    let g = Point::generator();
    assert_eq!(g.mul_u64(2), g.add(g));
}

#[test]
fn triple_is_mul_3() {
    let g = Point::generator();
    assert_eq!(g.mul_u64(3), g.add(g).add(g));
}

#[test]
fn p_times_2() {
    let p = base_point();
    let expected = word_point(
        0xC6047F9441ED7D6D,
        0x3045406E95C07CD8,
        0x5C778E4B8CEF3CA7,
        0xABAC09B95C709EE5,
        0x1AE168FEA63DC339,
        0xA3C58419466CEAEE,
        0xF7F632653266D0E1,
        0x236431A950CFE52A,
    );
    assert_eq!(p.mul_u64(2), expected);
}

#[test]
fn p_times_3() {
    let p = base_point();
    let expected = word_point(
        0xF9308A019258C310,
        0x49344F85F89D5229,
        0xB531C845836F99B0,
        0x8601F113BCE036F9,
        0x388F7B0F632DE814,
        0x0FE337E62A37F356,
        0x6500A99934C2231B,
        0x6CB9FD7584B8E672,
    );
    assert_eq!(p.mul_u64(3), expected);
}

#[test]
fn multiplicative_inverse() {
    let g = Point::generator();
    let inv = Point::scalar_multiplicative_inverse(U256::from_u64(42));
    assert_eq!(g.mul_u64(42).mul_u256(inv), g);
}

#[test]
fn generator_matches_base_point() {
    assert_eq!(Point::generator(), base_point());
}

#[test]
fn add_neutral_is_identity() {
    let g = Point::generator();
    assert_eq!(g.add(Point::at_infinity()), g);
    assert_eq!(Point::at_infinity().add(g), g);
}

#[test]
fn add_negation_is_neutral() {
    let g = Point::generator();
    assert!(g.add(g.neg()).is_at_infinity());
    assert_eq!(g.neg().neg(), g);
}

#[test]
fn new_rejects_off_curve_pair() {
    let one = Zp::checked_from(U256::from_u64(1)).unwrap();
    assert_eq!(Point::new(one, one), None);
}

#[test]
fn mul_u256_agrees_with_mul_u64() {
    let g = Point::generator();
    assert_eq!(g.mul_u256(U256::from_u64(5)), g.mul_u64(5));
}

#[test]
fn mul_by_zero_and_one() {
    let g = Point::generator();
    assert!(g.mul_u64(0).is_at_infinity());
    assert_eq!(g.mul_u64(1), g);
}
