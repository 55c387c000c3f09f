use crate::params::{order_nat, p_nat};
use crate::u256::{as_nat, U256};
use vstd::prelude::*;

verus! {

/// Relies on `bigint::uint::U256::mod_inverse`, an iterative extended
/// Euclidean algorithm that keeps its cofactors reduced modulo the modulus:
/// for an operand coprime to the modulus it returns the multiplicative
/// inverse of the operand, reduced modulo the modulus. It is called here
/// only with the two moduli of this library, the field prime `p` and the
/// group order `n`; both are odd primes, so any operand that is not a
/// multiple of the modulus is coprime to it and the inverse exists.
#[verifier::external_body]
pub(crate) fn mod_inverse(a: &U256, m: &U256) -> (r: U256)
    requires
        as_nat(*m) == p_nat() || as_nat(*m) == order_nat(),
        as_nat(*a) % as_nat(*m) != 0,
    ensures
        as_nat(r) < as_nat(*m),
        (as_nat(*a) * as_nat(r)) % as_nat(*m) == 1,
{
    let av = bigint::uint::U256([a.w0, a.w1, a.w2, a.w3]);
    let mv = bigint::uint::U256([m.w0, m.w1, m.w2, m.w3]);
    let rv = av.mod_inverse(mv);
    U256 { w0: rv.0[0], w1: rv.0[1], w2: rv.0[2], w3: rv.0[3] }
}

} // verus!
