use vstd::prelude::*;
use vstd::arithmetic::power2::{
    pow2, lemma_pow2_adds, lemma2_to64, lemma2_to64_rest, lemma_pow2_pos,
};
use vstd::arithmetic::div_mod::{
    lemma_fundamental_div_mod, lemma_fundamental_div_mod_converse,
    lemma_fundamental_div_mod_converse_mod, lemma_small_mod, lemma_mod_multiples_vanish,
    lemma_hoist_over_denominator, lemma_multiply_divide_lt, lemma_mul_mod_noop_right,
    lemma_mod_bound,
};
use vstd::arithmetic::mul::{
    lemma_mul_is_associative, lemma_mul_is_commutative, lemma_mul_inequality,
    lemma_mul_strict_inequality, lemma_mul_is_distributive_add_other_way,
};

verus! {

/// 2 to the power 64.
pub open spec fn two_64() -> nat {
    0x10000000000000000nat
}

/// 2 to the power 128.
pub open spec fn two_128() -> nat {
    0x100000000000000000000000000000000nat
}

/// 2 to the power 192.
pub open spec fn two_192() -> nat {
    0x1000000000000000000000000000000000000000000000000nat
}

/// 2 to the power 255.
pub open spec fn two_255() -> nat {
    0x8000000000000000000000000000000000000000000000000000000000000000nat
}

/// 2 to the power 256.
pub open spec fn two_256() -> nat {
    0x10000000000000000000000000000000000000000000000000000000000000000nat
}

/// A 256-bit unsigned integer held as four 64-bit limbs, least significant
/// first. It is a plain fixed-width integer: it carries no field or curve
/// semantics of its own.
#[derive(Clone, Copy, PartialEq, Eq, Structural, Debug, Hash, PartialOrd, Ord)]
pub struct U256 {
    pub w0: u64,
    pub w1: u64,
    pub w2: u64,
    pub w3: u64,
}

/// The integer a `U256` stands for.
pub open spec fn as_nat(u: U256) -> nat {
    u.w0 as nat + u.w1 as nat * two_64() + u.w2 as nat * two_128() + u.w3 as nat * two_192()
}

/// Every `U256` holds a value below 2^256.
pub proof fn lemma_as_nat_bound(u: U256)
    ensures
        as_nat(u) < two_256(),
{
}

/// Two `U256` values standing for the same integer are limb-for-limb equal.
pub proof fn lemma_as_nat_inj(a: U256, b: U256)
    requires
        as_nat(a) == as_nat(b),
    ensures
        a == b,
{
    let m: int = two_64() as int;
    let x: int = as_nat(a) as int;
    let qa: int = a.w1 as int + a.w2 as int * two_64() + a.w3 as int * two_128();
    let qb: int = b.w1 as int + b.w2 as int * two_64() + b.w3 as int * two_128();
    lemma_fundamental_div_mod_converse(x, m, qa, a.w0 as int);
    lemma_fundamental_div_mod_converse(x, m, qb, b.w0 as int);
    assert(a.w0 == b.w0 && qa == qb);
    let qa2: int = a.w2 as int + a.w3 as int * two_64();
    let qb2: int = b.w2 as int + b.w3 as int * two_64();
    lemma_fundamental_div_mod_converse(qa, m, qa2, a.w1 as int);
    lemma_fundamental_div_mod_converse(qb, m, qb2, b.w1 as int);
    assert(a.w1 == b.w1 && qa2 == qb2);
    lemma_fundamental_div_mod_converse(qa2, m, a.w3 as int, a.w2 as int);
    lemma_fundamental_div_mod_converse(qb2, m, b.w3 as int, b.w2 as int);
    assert(a.w2 == b.w2 && a.w3 == b.w3);
}

/// Concrete values for the powers of two the limb layout rests on.
pub proof fn lemma_pow2_facts()
    ensures
        pow2(64) == two_64(),
        pow2(128) == two_128(),
        pow2(192) == two_192(),
        pow2(255) == two_255(),
        pow2(256) == two_256(),
        pow2(0) == 1,
{
    lemma2_to64();
    lemma2_to64_rest();
    lemma_pow2_adds(64, 64);
    assert(pow2(128) == two_64() * two_64());
    lemma_pow2_adds(128, 64);
    assert(pow2(192) == two_128() * two_64());
    lemma_pow2_adds(128, 128);
    assert(pow2(256) == two_128() * two_128());
    lemma_pow2_adds(192, 63);
    assert(pow2(255) == two_192() * 0x8000000000000000);
}

impl U256 {
    /// Builds the integer `w3*2^192 + w2*2^128 + w1*2^64 + w0`
    /// from its 64-bit words, most significant first.
    pub fn from_words(w3: u64, w2: u64, w1: u64, w0: u64) -> (r: U256)
        ensures
            as_nat(r) == w0 as nat + w1 as nat * two_64() + w2 as nat * two_128() + w3 as nat
                * two_192(),
    {
        U256 { w0, w1, w2, w3 }
    }

    /// Embeds a 64-bit value.
    pub fn from_u64(v: u64) -> (r: U256)
        ensures
            as_nat(r) == v,
    {
        U256 { w0: v, w1: 0, w2: 0, w3: 0 }
    }

    /// True exactly of the integer zero.
    pub fn is_zero(&self) -> (r: bool)
        ensures
            r == (as_nat(*self) == 0),
    {
        self.w0 == 0 && self.w1 == 0 && self.w2 == 0 && self.w3 == 0
    }

    /// Strict comparison of the integers two values stand for.
    pub fn lt(&self, other: &U256) -> (r: bool)
        ensures
            r == (as_nat(*self) < as_nat(*other)),
    {
        if self.w3 != other.w3 {
            self.w3 < other.w3
        } else if self.w2 != other.w2 {
            self.w2 < other.w2
        } else if self.w1 != other.w1 {
            self.w1 < other.w1
        } else {
            self.w0 < other.w0
        }
    }

    /// Addition modulo 2^256; the flag reports that the true sum
    /// overflowed the width.
    pub fn overflowing_add(self, other: U256) -> (r: (U256, bool))
        ensures
            as_nat(r.0) + (if r.1 {
                two_256()
            } else {
                0nat
            }) == as_nat(self) + as_nat(other),
            r.1 == (as_nat(self) + as_nat(other) >= two_256()),
    {
        let m: u128 = 0x10000000000000000;
        let s0: u128 = self.w0 as u128 + other.w0 as u128;
        let r0: u64 = (s0 % m) as u64;
        let c0: u128 = s0 / m;
        let s1: u128 = self.w1 as u128 + other.w1 as u128 + c0;
        let r1: u64 = (s1 % m) as u64;
        let c1: u128 = s1 / m;
        let s2: u128 = self.w2 as u128 + other.w2 as u128 + c1;
        let r2: u64 = (s2 % m) as u64;
        let c2: u128 = s2 / m;
        let s3: u128 = self.w3 as u128 + other.w3 as u128 + c2;
        let r3: u64 = (s3 % m) as u64;
        let c3: u128 = s3 / m;
        proof {
            lemma_fundamental_div_mod(s0 as int, m as int);
            lemma_fundamental_div_mod(s1 as int, m as int);
            lemma_fundamental_div_mod(s2 as int, m as int);
            lemma_fundamental_div_mod(s3 as int, m as int);
        }
        (U256 { w0: r0, w1: r1, w2: r2, w3: r3 }, c3 == 1)
    }

    /// Subtraction modulo 2^256; the flag reports a borrow, that is,
    /// that the subtrahend was the larger integer.
    pub fn overflowing_sub(self, other: U256) -> (r: (U256, bool))
        ensures
            as_nat(r.0) as int == as_nat(self) - as_nat(other) + (if r.1 {
                two_256() as int
            } else {
                0
            }),
            r.1 == (as_nat(self) < as_nat(other)),
    {
        let m: u128 = 0x10000000000000000;
        let d0: u128 = m + self.w0 as u128 - other.w0 as u128;
        let r0: u64 = (d0 % m) as u64;
        let b0: u128 = 1 - d0 / m;
        let d1: u128 = m + self.w1 as u128 - other.w1 as u128 - b0;
        let r1: u64 = (d1 % m) as u64;
        let b1: u128 = 1 - d1 / m;
        let d2: u128 = m + self.w2 as u128 - other.w2 as u128 - b1;
        let r2: u64 = (d2 % m) as u64;
        let b2: u128 = 1 - d2 / m;
        let d3: u128 = m + self.w3 as u128 - other.w3 as u128 - b2;
        let r3: u64 = (d3 % m) as u64;
        let b3: u128 = 1 - d3 / m;
        proof {
            lemma_fundamental_div_mod(d0 as int, m as int);
            lemma_fundamental_div_mod(d1 as int, m as int);
            lemma_fundamental_div_mod(d2 as int, m as int);
            lemma_fundamental_div_mod(d3 as int, m as int);
        }
        (U256 { w0: r0, w1: r1, w2: r2, w3: r3 }, b3 == 1)
    }

    /// Left shift by one bit, discarding the overflowed high bit.
    pub fn wrapping_shl1(self) -> (r: U256)
        ensures
            as_nat(r) == (2 * as_nat(self)) % two_256(),
    {
        let (s, ov) = self.overflowing_add(self);
        proof {
            lemma_as_nat_bound(s);
            lemma_fundamental_div_mod_converse_mod(
                2 * as_nat(self) as int,
                two_256() as int,
                if ov {
                    1
                } else {
                    0
                },
                as_nat(s) as int,
            );
        }
        s
    }

    /// True exactly when the most significant bit (bit 255) is set.
    pub fn msb_set(&self) -> (r: bool)
        ensures
            r == (as_nat(*self) >= two_255()),
    {
        self.w3 >= 0x8000000000000000
    }
}

/// One step of a most-significant-bit-first double-and-add walk over a
/// 256-bit multiplier `k`: after `i` iterations the running shifted copy of
/// `k` is `(k * 2^i) % 2^256`, its top bit is the next bit of `k` to
/// consume, and consuming it extends the prefix `k / 2^(256-i)` by one bit.
pub proof fn lemma_shift_step(k: nat, i: nat)
    requires
        i < 256,
        k < two_256(),
    ensures
        k / pow2((255 - i) as nat) == 2 * (k / pow2((256 - i) as nat)) + (if (k * pow2(i))
            % two_256() >= two_255() {
            1nat
        } else {
            0nat
        }),
        (2 * ((k * pow2(i)) % two_256())) % two_256() == (k * pow2((i + 1) as nat)) % two_256(),
{
    lemma_pow2_facts();
    let e = (255 - i) as nat;
    lemma_pow2_pos(e);
    lemma_pow2_pos(i);
    lemma2_to64();
    let pe: int = pow2(e) as int;
    let pi: int = pow2(i) as int;
    let ki: int = k as int;
    let m: int = two_256() as int;
    assert(pow2((256 - i) as nat) == 2 * pe) by {
        lemma_pow2_adds(e, 1);
        assert(pow2(1) == 2);
    }
    let q: int = ki / (2 * pe);
    let r: int = ki % (2 * pe);
    lemma_fundamental_div_mod(ki, 2 * pe);
    // k == (2 * pe) * q + r, 0 <= r < 2 * pe
    let bit: int = r / pe;
    assert(bit < 2) by {
        lemma_multiply_divide_lt(r, pe, 2);
    }
    assert(q >= 0 && r >= 0) by {
        vstd::arithmetic::div_mod::lemma_div_pos_is_pos(ki, 2 * pe);
    }
    // First: k / pow2(e) == 2 * q + bit
    assert((2 * pe) * q == (2 * q) * pe) by {
        lemma_mul_is_associative(2, pe, q);
        lemma_mul_is_commutative(pe, q);
        lemma_mul_is_associative(2, q, pe);
    }
    assert(ki / pe == r / pe + 2 * q) by {
        lemma_hoist_over_denominator(r, 2 * q, pow2(e));
        assert(ki == r + (2 * q) * pe);
    }
    // The prefix identity
    assert(k / pow2((255 - i) as nat) == 2 * (k / pow2((256 - i) as nat)) + bit);
    // Second: the shifted copy is r * pow2(i)
    assert((2 * pe) * pi == m) by {
        lemma_mul_is_associative(2, pe, pi);
        lemma_pow2_adds(e, i);
        assert(pe * pi == pow2(255));
    }
    assert(ki * pi == m * q + r * pi) by {
        assert(ki == (2 * pe) * q + r);
        lemma_mul_is_distributive_add_other_way(pi, (2 * pe) * q, r);
        lemma_mul_is_associative(2 * pe, q, pi);
        lemma_mul_is_commutative(q, pi);
        lemma_mul_is_associative(2 * pe, pi, q);
    }
    assert(r * pi < m) by {
        lemma_mul_strict_inequality(r, 2 * pe, pi);
    }
    assert(r * pi >= 0) by {
        vstd::arithmetic::mul::lemma_mul_nonnegative(r, pi);
    }
    assert((ki * pi) % m == r * pi) by {
        lemma_mod_multiples_vanish(q, r * pi, m);
        lemma_small_mod((r * pi) as nat, m as nat);
    }
    // The top bit of the shifted copy is `bit`
    assert(pe * pi == pow2(255) as int) by {
        lemma_pow2_adds(e, i);
    }
    if bit == 1 {
        assert(r >= pe) by {
            lemma_fundamental_div_mod(r, pe);
            lemma_mod_bound(r, pe);
        }
        assert(r * pi >= pe * pi) by {
            lemma_mul_inequality(pe, r, pi);
        }
        assert((k * pow2(i)) % two_256() >= two_255());
    } else {
        assert(bit == 0) by {
            vstd::arithmetic::div_mod::lemma_div_pos_is_pos(r, pe);
        }
        assert(r < pe) by {
            lemma_fundamental_div_mod(r, pe);
            lemma_mod_bound(r, pe);
        }
        assert(r * pi < pe * pi) by {
            lemma_mul_strict_inequality(r, pe, pi);
        }
        assert((k * pow2(i)) % two_256() < two_255());
    }
    // Third: doubling the shifted copy steps the shift
    assert((2 * ((ki * pi) % m)) % m == (2 * (ki * pi)) % m) by {
        lemma_mul_mod_noop_right(2, ki * pi, m);
    }
    assert(2 * (ki * pi) == ki * pow2((i + 1) as nat)) by {
        lemma_pow2_adds(i, 1);
        assert(pow2((i + 1) as nat) as int == pi * 2);
        lemma_mul_is_associative(ki, pi, 2);
        lemma_mul_is_commutative(ki * pi, 2);
    }
}

} // verus!
