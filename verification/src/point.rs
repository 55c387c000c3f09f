use crate::field::{
    add_f, div_f, lemma_sub_f_nonzero, lemma_twice_nonzero, lemma_zp_eq, mul_f, neg_f, sub_f, Zp,
};
use crate::params::{b_nat, generator_x, generator_y, order_nat, order_u256, p_nat};
use crate::u256::{
    as_nat, lemma_as_nat_bound, lemma_pow2_facts, lemma_shift_step, two_255, two_256, U256,
};
use vstd::arithmetic::div_mod::{
    lemma_basic_div, lemma_div_basics, lemma_fundamental_div_mod_converse, lemma_small_mod,
};
use vstd::arithmetic::power2::pow2;
use vstd::prelude::*;

verus! {

/// The mathematical value of a curve point: a pair of canonical residues,
/// with the all-zero pair reserved as the sentinel for the point at
/// infinity. The sentinel does not satisfy the curve equation, so it is
/// unambiguous.
pub ghost struct PointV {
    pub x: nat,
    pub y: nat,
}

/// The group's neutral element.
pub open spec fn pt_infinity() -> PointV {
    PointV { x: 0, y: 0 }
}

/// True of the neutral element alone.
pub open spec fn pt_is_infinity(p: PointV) -> bool {
    p.x == 0 && p.y == 0
}

/// Group negation: mirror the point across the x-axis. The neutral
/// element's y-coordinate is already zero, so it is left unchanged.
pub open spec fn pt_neg(p: PointV) -> PointV {
    PointV { x: p.x, y: neg_f(p.y) }
}

/// The curve membership predicate: the sentinel, or a solution of the
/// short-Weierstrass equation `y^2 = x^3 + B` over the field.
pub open spec fn on_curve(p: PointV) -> bool {
    pt_is_infinity(p) || mul_f(p.y, p.y) == add_f(mul_f(mul_f(p.x, p.x), p.x), b_nat())
}

/// The group law for this short-Weierstrass curve, `q + p`. Either neutral
/// operand returns the other; a point plus its negation is neutral; a
/// doubling uses the tangent slope `3*x^2 / (2*y)`, two distinct points the
/// chord slope `(q.y - p.y) / (q.x - p.x)`. Distinct points sharing an
/// x-coordinate without being negations cannot both lie on the curve; that
/// branch answers the neutral element so the law is total.
pub open spec fn spec_point_add(q: PointV, p: PointV) -> PointV {
    if pt_is_infinity(q) {
        p
    } else if pt_is_infinity(p) {
        q
    } else if q == pt_neg(p) {
        pt_infinity()
    } else if q == p {
        let lambda = div_f(mul_f(mul_f(p.x, p.x), 3), mul_f(p.y, 2));
        let x = sub_f(sub_f(mul_f(lambda, lambda), p.x), q.x);
        PointV { x, y: sub_f(mul_f(lambda, sub_f(p.x, x)), p.y) }
    } else if q.x == p.x {
        pt_infinity()
    } else {
        let lambda = div_f(sub_f(q.y, p.y), sub_f(q.x, p.x));
        let x = sub_f(sub_f(mul_f(lambda, lambda), p.x), q.x);
        PointV { x, y: sub_f(mul_f(lambda, sub_f(p.x, x)), p.y) }
    }
}

/// Scalar multiplication, defined by the double-and-add recursion over the
/// binary expansion of the scalar: the empty scalar gives the neutral
/// element; otherwise double the result for the high bits and add the point
/// once more when the low bit is set.
pub open spec fn spec_scalar_mul(p: PointV, k: nat) -> PointV
    decreases k,
{
    if k == 0 {
        pt_infinity()
    } else {
        let h = spec_scalar_mul(p, k / 2);
        let d = spec_point_add(h, h);
        if k % 2 == 1 {
            spec_point_add(d, p)
        } else {
            d
        }
    }
}

/// One double-and-add step in the group: if a partial result is
/// `spec_scalar_mul(p, t)`, doubling it and conditionally adding `p` once
/// more yields `spec_scalar_mul(p, 2t + bit)`.
pub proof fn lemma_scalar_mul_step(p: PointV, t: nat, bit: nat, v: PointV)
    requires
        bit == 0 || bit == 1,
        v == spec_scalar_mul(p, t),
    ensures
        ({
            let d = spec_point_add(v, v);
            (if bit == 1 {
                spec_point_add(d, p)
            } else {
                d
            }) == spec_scalar_mul(p, 2 * t + bit)
        }),
{
    let tp: nat = 2 * t + bit;
    if tp == 0 {
        assert(spec_scalar_mul(p, 0) == pt_infinity());
        assert(spec_point_add(pt_infinity(), pt_infinity()) == pt_infinity());
    } else {
        lemma_fundamental_div_mod_converse(tp as int, 2, t as int, bit as int);
        assert(tp / 2 == t && tp % 2 == bit);
    }
}

/// A point of the secp256k1 curve group: an affine coordinate pair, or the
/// all-zero sentinel standing for the point at infinity.
#[derive(Clone, Copy, PartialEq, Eq, Structural, Debug, Hash, PartialOrd, Ord)]
pub struct Point {
    x: Zp,
    y: Zp,
}

/// Two points are the same value exactly when their coordinate pairs agree:
/// the coordinate representation is canonical.
pub proof fn lemma_point_eq(a: Point, b: Point)
    ensures
        (a == b) <==> (a.v() == b.v()),
{
    lemma_zp_eq(a.x, b.x);
    lemma_zp_eq(a.y, b.y);
    if a.v() == b.v() {
        assert(a.x == b.x && a.y == b.y);
    }
}

/// Adding the neutral element on either side returns the other point
/// unchanged.
pub proof fn lemma_add_infinity(p: PointV)
    ensures
        spec_point_add(p, pt_infinity()) == p,
        spec_point_add(pt_infinity(), p) == p,
{
}

/// Adding a point to its negation yields the neutral element.
pub proof fn lemma_add_negation(p: PointV)
    requires
        p.x < p_nat(),
        p.y < p_nat(),
    ensures
        spec_point_add(p, pt_neg(p)) == pt_infinity(),
{
    let n = pt_neg(p);
    if pt_is_infinity(p) {
        assert(n == pt_infinity());
    } else {
        assert(pt_neg(n) == p);
        assert(!pt_is_infinity(n));
    }
}

/// Small scalars spell out to repeated addition: multiplying by 1 is the
/// point itself, by 2 a self-addition, by 3 two additions.
pub proof fn lemma_small_scalars(p: PointV)
    ensures
        spec_scalar_mul(p, 1) == p,
        spec_scalar_mul(p, 2) == spec_point_add(p, p),
        spec_scalar_mul(p, 3) == spec_point_add(spec_point_add(p, p), p),
{
    lemma_add_infinity(p);
    assert(spec_scalar_mul(p, 0) == pt_infinity());
    assert(spec_scalar_mul(p, 1) == p);
    assert(spec_scalar_mul(p, 2) == spec_point_add(p, p));
    assert(spec_scalar_mul(p, 3) == spec_point_add(spec_point_add(p, p), p));
}

/// The published base point satisfies the curve equation.
pub proof fn lemma_generator_on_curve()
    ensures
        on_curve(PointV { x: generator_x(), y: generator_y() }),
{
    assert(mul_f(generator_y(), generator_y()) == add_f(
        mul_f(mul_f(generator_x(), generator_x()), generator_x()),
        b_nat(),
    ));
}

impl Point {
    /// The coordinate pair this point stands for.
    pub closed spec fn v(self) -> PointV {
        PointV { x: self.x.val(), y: self.y.val() }
    }

    /// Both coordinates are canonical residues.
    pub closed spec fn wf(self) -> bool {
        self.x.wf() && self.y.wf()
    }

    /// The neutral element, encoded as the all-zero coordinate pair.
    pub fn at_infinity() -> (r: Point)
        ensures
            r.wf(),
            r.v() == pt_infinity(),
    {
        Point { x: Zp::zero(), y: Zp::zero() }
    }

    /// The published base point `G` of secp256k1.
    pub fn generator() -> (r: Point)
        ensures
            r.wf(),
            r.v() == (PointV { x: generator_x(), y: generator_y() }),
            on_curve(r.v()),
    {
        proof {
            lemma_generator_on_curve();
        }
        let x = Zp::checked_from(
            U256::from_words(
                0x79BE667EF9DCBBAC,
                0x55A06295CE870B07,
                0x029BFCDB2DCE28D9,
                0x59F2815B16F81798,
            ),
        );
        let y = Zp::checked_from(
            U256::from_words(
                0x483ADA7726A3C465,
                0x5DA4FBFC0E1108A8,
                0xFD17B448A6855419,
                0x9C47D08FFB10D4B8,
            ),
        );
        Point { x: x.unwrap(), y: y.unwrap() }
    }

    /// Constructs the point from coordinates. Returns `None` if the pair is
    /// neither the sentinel nor a solution of the curve equation.
    pub fn new(x: Zp, y: Zp) -> (r: Option<Point>)
        requires
            x.wf(),
            y.wf(),
        ensures
            r is Some <==> on_curve(PointV { x: x.val(), y: y.val() }),
            r matches Some(pt) ==> pt.wf() && pt.v() == (PointV { x: x.val(), y: y.val() }),
    {
        let b = Zp::wrapping_from(U256::from_u64(7));
        proof {
            lemma_small_mod(7, p_nat());
        }
        let lhs = y.mul(y);
        let rhs = x.mul(x).mul(x).add(b);
        proof {
            lemma_zp_eq(lhs, rhs);
        }
        if (x.is_zero() && y.is_zero()) || lhs == rhs {
            Some(Point { x, y })
        } else {
            None
        }
    }

    /// The x-coordinate.
    pub fn x(&self) -> (r: Zp)
        ensures
            r.val() == self.v().x,
            self.wf() ==> r.wf(),
    {
        self.x
    }

    /// The y-coordinate.
    pub fn y(&self) -> (r: Zp)
        ensures
            r.val() == self.v().y,
            self.wf() ==> r.wf(),
    {
        self.y
    }

    /// Checks whether the point is the neutral element.
    pub fn is_at_infinity(&self) -> (r: bool)
        ensures
            r == pt_is_infinity(self.v()),
    {
        self.x.is_zero() && self.y.is_zero()
    }

    /// Group negation: mirror across the x-axis.
    pub fn neg(self) -> (r: Point)
        requires
            self.wf(),
        ensures
            r.wf(),
            r.v() == pt_neg(self.v()),
    {
        Point { x: self.x, y: self.y.neg() }
    }

    /// The group law: adds two points as `spec_point_add` describes, with
    /// every slope division justified by a nonzero denominator.
    pub fn add(self, rhs: Point) -> (r: Point)
        requires
            self.wf(),
            rhs.wf(),
        ensures
            r.wf(),
            r.v() == spec_point_add(self.v(), rhs.v()),
    {
        if self.is_at_infinity() {
            return rhs;
        }
        if rhs.is_at_infinity() {
            return self;
        }
        let rhs_neg = rhs.neg();
        proof {
            lemma_point_eq(self, rhs_neg);
        }
        if self == rhs_neg {
            return Point::at_infinity();
        }
        let q = self;
        let p = rhs;
        proof {
            lemma_point_eq(q, p);
        }
        let lambda = if p == q {
            proof {
                assert(q.v().y != 0);
                lemma_twice_nonzero(p.v().y);
            }
            p.x.mul(p.x).mul_u64(3).div(p.y.mul_u64(2))
        } else {
            proof {
                lemma_zp_eq(q.x, p.x);
            }
            if q.x == p.x {
                return Point::at_infinity();
            }
            proof {
                lemma_sub_f_nonzero(q.v().x, p.v().x);
            }
            q.y.sub(p.y).div(q.x.sub(p.x))
        };
        let x = lambda.mul(lambda).sub(p.x).sub(q.x);
        let y = lambda.mul(p.x.sub(x)).sub(p.y);
        Point { x, y }
    }

    /// Scalar multiplication by an arbitrary 256-bit integer: a fixed-length
    /// double-and-add walk over all 256 scalar bits, most significant first.
    /// The per-bit conditional add makes its timing operand-dependent.
    #[verifier::rlimit(100)]
    pub fn mul_u256(self, rhs: U256) -> (r: Point)
        requires
            self.wf(),
        ensures
            r.wf(),
            r.v() == spec_scalar_mul(self.v(), as_nat(rhs)),
    {
        let ghost k: nat = as_nat(rhs);
        let ghost pv: PointV = self.v();
        let mut res = Point::at_infinity();
        let mut cur = rhs;
        let mut i: usize = 0;
        proof {
            lemma_pow2_facts();
            lemma_as_nat_bound(rhs);
            lemma_small_mod(k, two_256());
            lemma_basic_div(k as int, pow2(256) as int);
            assert(as_nat(cur) == (k * pow2(0)) % two_256());
            assert(spec_scalar_mul(pv, 0) == pt_infinity());
        }
        while i < 256
            invariant
                i <= 256,
                self.wf(),
                res.wf(),
                k == as_nat(rhs),
                k < two_256(),
                pv == self.v(),
                as_nat(cur) == (k * pow2(i as nat)) % two_256(),
                res.v() == spec_scalar_mul(pv, k / pow2((256 - i) as nat)),
            decreases 256 - i,
        {
            let ghost t: nat = k / pow2((256 - i) as nat);
            let ghost bit: nat = if as_nat(cur) >= two_255() {
                1nat
            } else {
                0nat
            };
            proof {
                lemma_shift_step(k, i as nat);
                lemma_scalar_mul_step(pv, t, bit, res.v());
            }
            res = res.add(res);
            if cur.msb_set() {
                res = res.add(self);
            }
            proof {
                assert(res.v() == spec_scalar_mul(pv, 2 * t + bit));
                assert(k / pow2((256 - (i + 1)) as nat) == 2 * t + bit);
            }
            cur = cur.wrapping_shl1();
            i = i + 1;
        }
        proof {
            lemma_pow2_facts();
            lemma_div_basics(k as int);
        }
        res
    }

    /// Scalar multiplication by a 64-bit scalar.
    pub fn mul_u64(self, rhs: u64) -> (r: Point)
        requires
            self.wf(),
        ensures
            r.wf(),
            r.v() == spec_scalar_mul(self.v(), rhs as nat),
    {
        self.mul_u256(U256::from_u64(rhs))
    }

    /// The multiplicative inverse of a scalar modulo the group order `n`
    /// (not the field prime), computed by the extended Euclidean algorithm.
    /// For any scalar `s` coprime to `n`, `(s * r) mod n == 1`, so
    /// `(P * s) * r == P` for every point `P` of the group `G` generates.
    pub fn scalar_multiplicative_inverse(scalar: U256) -> (r: U256)
        requires
            as_nat(scalar) % order_nat() != 0,
        ensures
            as_nat(r) < order_nat(),
            (as_nat(scalar) * as_nat(r)) % order_nat() == 1,
    {
        crate::modinv::mod_inverse(&scalar, &order_u256())
    }
}

} // verus!
