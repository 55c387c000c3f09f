use crate::params::{p_nat, p_u256};
use crate::u256::{
    as_nat, lemma_as_nat_bound, lemma_as_nat_inj, lemma_pow2_facts, lemma_shift_step, two_255,
    two_256, U256,
};
use vstd::arithmetic::div_mod::{
    lemma_add_mod_noop, lemma_add_mod_noop_right, lemma_basic_div, lemma_div_basics,
    lemma_mod_add_multiples_vanish, lemma_mod_sub_multiples_vanish, lemma_mul_mod_noop_right,
    lemma_small_mod,
};
use vstd::arithmetic::power2::pow2;
use vstd::prelude::*;

verus! {

/// Field addition on residues: `(a + b) mod p`.
pub open spec fn add_f(a: nat, b: nat) -> nat {
    (a + b) % p_nat()
}

/// Field negation of a canonical residue: zero stays zero, anything else
/// maps to `p - v`.
pub open spec fn neg_f(v: nat) -> nat {
    if v == 0 {
        0
    } else {
        (p_nat() - v) as nat
    }
}

/// Field subtraction on canonical residues: `(a - b) mod p`.
pub open spec fn sub_f(a: nat, b: nat) -> nat {
    add_f(a, neg_f(b))
}

/// Field multiplication on residues: `(a * b) mod p`.
pub open spec fn mul_f(a: nat, b: nat) -> nat {
    (a * b) % p_nat()
}

/// The multiplicative inverse of `v` in the field: the canonical residue
/// `w` with `(v * w) mod p == 1`. Such a residue is unique when it exists.
pub open spec fn field_inv(v: nat) -> nat {
    choose|w: nat| w < p_nat() && mul_f(v, w) == 1
}

/// Field division: multiplication by the inverse of the divisor.
pub open spec fn div_f(a: nat, b: nat) -> nat {
    mul_f(a, field_inv(b))
}

/// An inverse is unique: any canonical residue `w` with `(v * w) mod p == 1`
/// is `field_inv(v)`.
pub proof fn lemma_field_inv_unique(v: nat, w: nat)
    requires
        w < p_nat(),
        (v * w) % p_nat() == 1,
    ensures
        field_inv(v) == w,
{
    let p = p_nat() as int;
    assert(exists|x: nat| x < p_nat() && mul_f(v, x) == 1) by {
        assert(w < p_nat() && mul_f(v, w) == 1);
    }
    let u = field_inv(v);
    assert(u < p_nat() && (v * u) % p_nat() == 1);
    let vi = v as int;
    let wi = w as int;
    let ui = u as int;
    assert((wi * (vi * ui)) % p == (wi * ((vi * ui) % p)) % p) by {
        lemma_mul_mod_noop_right(wi, vi * ui, p);
    }
    assert((ui * (vi * wi)) % p == (ui * ((vi * wi) % p)) % p) by {
        lemma_mul_mod_noop_right(ui, vi * wi, p);
    }
    assert(wi * (vi * ui) == ui * (vi * wi)) by (nonlinear_arith);
    assert((vi * ui) % p == 1);
    assert((vi * wi) % p == 1);
    assert((wi * 1) % p == w) by {
        lemma_small_mod(w, p_nat());
    }
    assert((ui * 1) % p == u) by {
        lemma_small_mod(u, p_nat());
    }
    assert(w as int == u as int);
}

/// Field addition commutes.
pub proof fn lemma_add_f_commutative(a: nat, b: nat)
    ensures
        add_f(a, b) == add_f(b, a),
{
}

/// Field addition associates.
pub proof fn lemma_add_f_associative(a: nat, b: nat, c: nat)
    ensures
        add_f(add_f(a, b), c) == add_f(a, add_f(b, c)),
{
    lemma_add_mod_assoc(a as int, b as int, c as int, p_nat() as int);
}

proof fn lemma_add_mod_assoc(a: int, b: int, c: int, m: int)
    requires
        0 < m,
    ensures
        ((a + b) % m + c) % m == (a + (b + c) % m) % m,
{
    lemma_add_mod_noop_right(c, a + b, m);
    lemma_add_mod_noop_right(a, b + c, m);
}

/// On a canonical residue, the piecewise negation is exactly the additive
/// inverse: `(0 - v) mod p`.
pub proof fn lemma_neg_f_is_mod(v: nat)
    requires
        v < p_nat(),
    ensures
        neg_f(v) as int == (0 - v as int) % (p_nat() as int),
{
    let p = p_nat() as int;
    if v == 0 {
        lemma_small_mod(0, p_nat());
    } else {
        lemma_mod_add_multiples_vanish(0 - v as int, p);
        lemma_small_mod((p_nat() - v) as nat, p_nat());
    }
}

/// On canonical residues, the piecewise subtraction is exactly the integer
/// difference reduced modulo `p`.
pub proof fn lemma_sub_f_is_mod(a: nat, b: nat)
    requires
        a < p_nat(),
        b < p_nat(),
    ensures
        sub_f(a, b) as int == (a - b) % (p_nat() as int),
{
    let p = p_nat() as int;
    if b == 0 {
        lemma_small_mod(a, p_nat());
    } else {
        lemma_mod_add_multiples_vanish(a - b, p);
        if a >= b {
            lemma_mod_sub_multiples_vanish((a + p_nat() - b) as int, p);
            lemma_small_mod((a - b) as nat, p_nat());
        } else {
            lemma_small_mod((a + p_nat() - b) as nat, p_nat());
        }
    }
}

/// The difference of two distinct canonical residues is a nonzero residue.
pub proof fn lemma_sub_f_nonzero(a: nat, b: nat)
    requires
        a < p_nat(),
        b < p_nat(),
        a != b,
    ensures
        sub_f(a, b) != 0,
{
    if b == 0 {
        lemma_small_mod(a, p_nat());
    } else {
        let s = a + p_nat() - b;
        if a < b {
            lemma_small_mod(s as nat, p_nat());
        } else {
            lemma_mod_sub_multiples_vanish(s as int, p_nat() as int);
            lemma_small_mod((a - b) as nat, p_nat());
        }
    }
}

/// Twice a nonzero canonical residue is a nonzero residue: the field prime
/// is odd, so `2*y` can never be a multiple of it in range.
pub proof fn lemma_twice_nonzero(y: nat)
    requires
        y < p_nat(),
        y != 0,
    ensures
        mul_f(y, 2) != 0,
{
    let s = y * 2;
    if s < p_nat() {
        lemma_small_mod(s as nat, p_nat());
    } else {
        lemma_mod_sub_multiples_vanish(s as int, p_nat() as int);
        lemma_small_mod((s - p_nat()) as nat, p_nat());
        if s == p_nat() {
            vstd::arithmetic::div_mod::lemma_mod_multiples_basic(y as int, 2int);
            assert(p_nat() % 2 == 1);
            assert(false);
        }
    }
}

/// One double-and-add step in the field: doubling a partial product
/// `(a*t) mod p` gives `(a*2t) mod p`, and adding `a` once more gives
/// `(a*(2t+1)) mod p`.
pub proof fn lemma_mul_f_step(a: nat, t: nat, v: nat)
    requires
        v == (a * t) % p_nat(),
    ensures
        add_f(v, v) == (a * (2 * t)) % p_nat(),
        add_f(add_f(v, v), a) == (a * (2 * t + 1)) % p_nat(),
{
    lemma_mul_mod_step(a as int, t as int, p_nat() as int);
}

proof fn lemma_mul_mod_step(a: int, t: int, m: int)
    requires
        0 < m,
        0 <= a,
        0 <= t,
    ensures
        ((a * t) % m + (a * t) % m) % m == (a * (2 * t)) % m,
        ((a * (2 * t)) % m + a) % m == (a * (2 * t + 1)) % m,
{
    lemma_add_mod_noop(a * t, a * t, m);
    assert(a * t + a * t == a * (2 * t)) by (nonlinear_arith);
    lemma_add_mod_noop_right(a, a * (2 * t), m);
    assert(a * (2 * t) + a == a * (2 * t + 1)) by (nonlinear_arith);
}

/// An element of the prime field: a canonical residue modulo the secp256k1
/// field prime `p`.
#[derive(Clone, Copy, PartialEq, Eq, Structural, Debug, Hash, PartialOrd, Ord)]
pub struct Zp {
    u: U256,
}

/// Two field elements are the same value exactly when they stand for the
/// same residue: the representation is canonical.
pub proof fn lemma_zp_eq(a: Zp, b: Zp)
    ensures
        (a == b) <==> (a.val() == b.val()),
{
    if a.val() == b.val() {
        lemma_as_nat_inj(a.u, b.u);
    }
}

impl Zp {
    /// The residue this element stands for.
    pub closed spec fn val(self) -> nat {
        as_nat(self.u)
    }

    /// Canonical form: the residue is below the field prime.
    pub open spec fn wf(self) -> bool {
        self.val() < p_nat()
    }

    /// The additive identity.
    pub fn zero() -> (r: Zp)
        ensures
            r.wf(),
            r.val() == 0,
    {
        Zp { u: U256::from_u64(0) }
    }

    /// Reduces an arbitrary 256-bit value to its least non-negative residue
    /// modulo `p`. Always succeeds.
    pub fn wrapping_from(value: U256) -> (r: Zp)
        ensures
            r.wf(),
            r.val() == as_nat(value) % p_nat(),
    {
        let p = p_u256();
        if value.lt(&p) {
            proof {
                lemma_small_mod(as_nat(value), p_nat());
            }
            Zp { u: value }
        } else {
            let (res, borrow) = value.overflowing_sub(p);
            proof {
                lemma_as_nat_bound(value);
                assert(two_256() < 2 * p_nat());
                assert(!borrow);
                lemma_mod_sub_multiples_vanish(as_nat(value) as int, p_nat() as int);
                lemma_small_mod((as_nat(value) - p_nat()) as nat, p_nat());
            }
            Zp { u: res }
        }
    }

    /// Accepts a 256-bit value only if it is already a canonical residue,
    /// that is, below `p`; no silent reduction.
    pub fn checked_from(value: U256) -> (r: Option<Zp>)
        ensures
            r is Some <==> as_nat(value) < p_nat(),
            r matches Some(z) ==> z.wf() && z.val() == as_nat(value),
    {
        let p = p_u256();
        if value.lt(&p) {
            Some(Zp { u: value })
        } else {
            None
        }
    }

    /// True exactly of the additive identity.
    pub fn is_zero(&self) -> (r: bool)
        ensures
            r == (self.val() == 0),
    {
        self.u.is_zero()
    }

    /// Field addition.
    pub fn add(self, rhs: Zp) -> (r: Zp)
        requires
            self.wf(),
            rhs.wf(),
        ensures
            r.wf(),
            r.val() == add_f(self.val(), rhs.val()),
    {
        let (res, overflow) = self.u.overflowing_add(rhs.u);
        let p = p_u256();
        let ghost s: nat = self.val() + rhs.val();
        if overflow || !res.lt(&p) {
            let (corrected, borrow) = res.overflowing_sub(p);
            proof {
                assert(two_256() < 2 * p_nat());
                if overflow {
                    assert(as_nat(res) as int == s - two_256());
                    assert(borrow);
                } else {
                    assert(!borrow);
                }
                assert(as_nat(corrected) as int == s - p_nat());
                lemma_mod_sub_multiples_vanish(s as int, p_nat() as int);
                lemma_small_mod((s - p_nat()) as nat, p_nat());
            }
            Zp { u: corrected }
        } else {
            proof {
                lemma_small_mod(s, p_nat());
            }
            Zp { u: res }
        }
    }

    /// Field subtraction.
    pub fn sub(self, rhs: Zp) -> (r: Zp)
        requires
            self.wf(),
            rhs.wf(),
        ensures
            r.wf(),
            r.val() == sub_f(self.val(), rhs.val()),
    {
        let (res, borrow) = self.u.overflowing_sub(rhs.u);
        let ghost a: nat = self.val();
        let ghost b: nat = rhs.val();
        if borrow {
            let (corrected, overflow) = res.overflowing_add(p_u256());
            proof {
                assert(overflow);
                assert(as_nat(corrected) as int == a - b + p_nat());
                lemma_small_mod((a - b + p_nat()) as nat, p_nat());
            }
            Zp { u: corrected }
        } else {
            proof {
                if b != 0 {
                    lemma_mod_sub_multiples_vanish((a + p_nat() - b) as int, p_nat() as int);
                }
                lemma_small_mod((a - b) as nat, p_nat());
            }
            Zp { u: res }
        }
    }

    /// Field negation: zero stays zero, anything else maps to `p - v`.
    pub fn neg(self) -> (r: Zp)
        requires
            self.wf(),
        ensures
            r.wf(),
            r.val() == neg_f(self.val()),
    {
        if self.is_zero() {
            self
        } else {
            let (res, borrow) = p_u256().overflowing_sub(self.u);
            proof {
                assert(!borrow);
            }
            Zp { u: res }
        }
    }

    /// Field multiplication by an arbitrary 256-bit integer: a fixed-length
    /// double-and-add walk over all 256 multiplier bits, most significant
    /// first. The per-bit conditional add makes its timing operand-dependent.
    #[verifier::rlimit(100)]
    pub fn mul_u256(self, rhs: U256) -> (r: Zp)
        requires
            self.wf(),
        ensures
            r.wf(),
            r.val() == mul_f(self.val(), as_nat(rhs)),
    {
        let ghost k: nat = as_nat(rhs);
        let ghost a: nat = self.val();
        let mut res = Zp::zero();
        let mut cur = rhs;
        let mut i: usize = 0;
        proof {
            lemma_pow2_facts();
            lemma_as_nat_bound(rhs);
            lemma_small_mod(k, two_256());
            lemma_basic_div(k as int, pow2(256) as int);
            assert(as_nat(cur) == (k * pow2(0)) % two_256());
            assert(a * (k / pow2(256)) == 0);
            assert(res.val() == (a * (k / pow2(256))) % p_nat()) by {
                lemma_small_mod(0, p_nat());
            }
        }
        while i < 256
            invariant
                i <= 256,
                self.wf(),
                res.wf(),
                k == as_nat(rhs),
                k < two_256(),
                a == self.val(),
                as_nat(cur) == (k * pow2(i as nat)) % two_256(),
                res.val() == (a * (k / pow2((256 - i) as nat))) % p_nat(),
            decreases 256 - i,
        {
            let ghost t: nat = k / pow2((256 - i) as nat);
            let ghost bit: nat = if as_nat(cur) >= two_255() {
                1nat
            } else {
                0nat
            };
            proof {
                lemma_shift_step(k, i as nat);
                lemma_mul_f_step(a, t, res.val());
            }
            res = res.add(res);
            if cur.msb_set() {
                res = res.add(self);
            }
            proof {
                assert(res.val() == (a * (2 * t + bit)) % p_nat());
                assert(k / pow2((256 - (i + 1)) as nat) == 2 * t + bit);
            }
            cur = cur.wrapping_shl1();
            i = i + 1;
        }
        proof {
            lemma_pow2_facts();
            lemma_div_basics(k as int);
        }
        res
    }

    /// Field multiplication.
    pub fn mul(self, rhs: Zp) -> (r: Zp)
        requires
            self.wf(),
            rhs.wf(),
        ensures
            r.wf(),
            r.val() == mul_f(self.val(), rhs.val()),
    {
        self.mul_u256(rhs.u)
    }

    /// Field multiplication by a 64-bit scalar.
    pub fn mul_u64(self, rhs: u64) -> (r: Zp)
        requires
            self.wf(),
        ensures
            r.wf(),
            r.val() == mul_f(self.val(), rhs as nat),
    {
        self.mul_u256(U256::from_u64(rhs))
    }

    /// The multiplicative inverse, computed by the extended Euclidean
    /// algorithm against the field prime. The additive identity has no
    /// inverse; callers must not ask for one.
    pub fn multiplicative_inverse(self) -> (r: Zp)
        requires
            self.wf(),
            self.val() != 0,
        ensures
            r.wf(),
            r.val() == field_inv(self.val()),
            (self.val() * r.val()) % p_nat() == 1,
    {
        proof {
            lemma_small_mod(self.val(), p_nat());
        }
        let inv = crate::modinv::mod_inverse(&self.u, &p_u256());
        proof {
            lemma_field_inv_unique(self.val(), as_nat(inv));
        }
        Zp { u: inv }
    }

    /// Field division: multiplication by the divisor's inverse. Division by
    /// the additive identity is a precondition violation.
    pub fn div(self, rhs: Zp) -> (r: Zp)
        requires
            self.wf(),
            rhs.wf(),
            rhs.val() != 0,
        ensures
            r.wf(),
            r.val() == div_f(self.val(), rhs.val()),
    {
        self.mul(rhs.multiplicative_inverse())
    }
}

} // verus!
