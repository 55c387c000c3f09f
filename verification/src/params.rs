use crate::u256::{as_nat, U256};
use vstd::prelude::*;

verus! {

/// The secp256k1 field prime `p = 2^256 - 2^32 - 977`.
pub open spec fn p_nat() -> nat {
    0xFFFFFFFFFFFFFFFFFFFFFFFFFFFFFFFFFFFFFFFFFFFFFFFFFFFFFFFEFFFFFC2Fnat
}

/// The order `n` of the group generated by the base point: the modulus for
/// scalar (exponent) arithmetic, distinct from the field prime.
pub open spec fn order_nat() -> nat {
    0xFFFFFFFFFFFFFFFFFFFFFFFFFFFFFFFEBAAEDCE6AF48A03BBFD25E8CD0364141nat
}

/// x-coordinate of the base point `G`.
pub open spec fn generator_x() -> nat {
    0x79BE667EF9DCBBAC55A06295CE870B07029BFCDB2DCE28D959F2815B16F81798nat
}

/// y-coordinate of the base point `G`.
pub open spec fn generator_y() -> nat {
    0x483ADA7726A3C4655DA4FBFC0E1108A8FD17B448A68554199C47D08FFB10D4B8nat
}

/// The curve parameter `B` of `y^2 = x^3 + B`.
pub open spec fn b_nat() -> nat {
    7
}

/// The field prime as a 256-bit integer.
pub fn p_u256() -> (r: U256)
    ensures
        as_nat(r) == p_nat(),
{
    U256::from_words(
        0xFFFFFFFFFFFFFFFF,
        0xFFFFFFFFFFFFFFFF,
        0xFFFFFFFFFFFFFFFF,
        0xFFFFFFFEFFFFFC2F,
    )
}

/// The group order as a 256-bit integer.
pub fn order_u256() -> (r: U256)
    ensures
        as_nat(r) == order_nat(),
{
    U256::from_words(
        0xFFFFFFFFFFFFFFFF,
        0xFFFFFFFFFFFFFFFE,
        0xBAAEDCE6AF48A03B,
        0xBFD25E8CD0364141,
    )
}

} // verus!
