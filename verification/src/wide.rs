//! Exact 256-bit and 384-bit unsigned integer arithmetic.
//!
//! Amounts of the two pool tokens are 128-bit numbers and bin prices are
//! Q128.128 fixed-point numbers, so products and scaled quotients need up to
//! 384 bits of headroom.  Every operation here carries an exact contract over
//! the mathematical value of its operands.

use vstd::prelude::*;

verus! {

/// A 256-bit unsigned integer, stored as two 128-bit limbs.
#[derive(Clone, Copy, Debug, PartialEq, Eq)]
pub struct U256 {
    pub hi: u128,
    pub lo: u128,
}

/// A 384-bit unsigned integer, stored as three 128-bit limbs.
#[derive(Clone, Copy, Debug, PartialEq, Eq)]
pub struct U384 {
    pub w2: u128,
    pub w1: u128,
    pub w0: u128,
}

/// 2^64.
pub open spec fn b64() -> int {
    0x1_0000_0000_0000_0000int
}

/// 2^128.
pub open spec fn b128() -> int {
    0x1_0000_0000_0000_0000_0000_0000_0000_0000int
}

/// 2^256.
pub open spec fn b256() -> int {
    b128() * b128()
}

/// 2^384.
pub open spec fn b384() -> int {
    b256() * b128()
}

/// 2^k as a mathematical integer.
pub open spec fn p2(k: nat) -> int {
    vstd::arithmetic::power2::pow2(k) as int
}

impl U256 {
    /// The mathematical value of this number.
    pub open spec fn val(self) -> int {
        self.hi * b128() + self.lo
    }

    pub fn new(hi: u128, lo: u128) -> (r: U256)
        ensures
            r.val() == hi * b128() + lo,
    {
        U256 { hi, lo }
    }

    pub fn from_u128(lo: u128) -> (r: U256)
        ensures
            r.val() == lo,
    {
        U256 { hi: 0, lo }
    }

    pub fn is_zero(self) -> (r: bool)
        ensures
            r == (self.val() == 0),
    {
        proof {
            lemma_u256_val_bounds(self);
        }
        self.hi == 0 && self.lo == 0
    }

    /// True when the value fits in 128 bits.
    pub fn fits_u128(self) -> (r: bool)
        ensures
            r == (self.val() < b128()),
    {
        proof {
            lemma_u256_val_bounds(self);
            if self.hi > 0 {
                assert(self.hi * b128() >= b128()) by (nonlinear_arith)
                    requires
                        self.hi >= 1,
                ;
            }
        }
        self.hi == 0
    }

    /// The low 128 bits; the whole value when it fits.
    pub fn to_u128(self) -> (r: u128)
        requires
            self.val() < b128(),
        ensures
            r == self.val(),
    {
        proof {
            if self.hi > 0 {
                assert(self.hi * b128() >= b128()) by (nonlinear_arith)
                    requires
                        self.hi >= 1,
                ;
            }
        }
        self.lo
    }

    pub fn lt(self, other: U256) -> (r: bool)
        ensures
            r == (self.val() < other.val()),
    {
        proof {
            lemma_limb_order_256(self, other);
        }
        self.hi < other.hi || (self.hi == other.hi && self.lo < other.lo)
    }

    pub fn le(self, other: U256) -> (r: bool)
        ensures
            r == (self.val() <= other.val()),
    {
        proof {
            lemma_limb_order_256(self, other);
        }
        self.hi < other.hi || (self.hi == other.hi && self.lo <= other.lo)
    }

    /// Subtraction; the result may not be negative.
    pub fn sub(self, other: U256) -> (r: U256)
        requires
            other.val() <= self.val(),
        ensures
            r.val() == self.val() - other.val(),
    {
        proof {
            lemma_limb_order_256(self, other);
        }
        if self.lo >= other.lo {
            U256 { hi: self.hi - other.hi, lo: self.lo - other.lo }
        } else {
            // Borrow one unit of the high limb.
            U256 { hi: self.hi - other.hi - 1, lo: self.lo + (u128::MAX - other.lo) + 1 }
        }
    }
}

impl U384 {
    /// The mathematical value of this number.
    pub open spec fn val(self) -> int {
        self.w2 * b256() + self.w1 * b128() + self.w0
    }

    pub fn from_u256(a: U256) -> (r: U384)
        ensures
            r.val() == a.val(),
    {
        U384 { w2: 0, w1: a.hi, w0: a.lo }
    }

    pub fn from_u128(a: u128) -> (r: U384)
        ensures
            r.val() == a,
    {
        U384 { w2: 0, w1: 0, w0: a }
    }

    /// The low 256 bits; the whole value when it fits.
    pub fn to_u256(self) -> (r: U256)
        requires
            self.val() < b256(),
        ensures
            r.val() == self.val(),
    {
        proof {
            if self.w2 > 0 {
                assert(self.w2 * b256() >= b256()) by (nonlinear_arith)
                    requires
                        self.w2 >= 1,
                ;
                lemma_u256_val_bounds(U256 { hi: self.w1, lo: self.w0 });
            }
        }
        U256 { hi: self.w1, lo: self.w0 }
    }

    pub fn fits_u256(self) -> (r: bool)
        ensures
            r == (self.val() < b256()),
    {
        proof {
            lemma_u384_val_bounds(self);
            if self.w2 > 0 {
                assert(self.w2 * b256() >= b256()) by (nonlinear_arith)
                    requires
                        self.w2 >= 1,
                ;
            }
        }
        self.w2 == 0
    }

    pub fn lt(self, other: U384) -> (r: bool)
        ensures
            r == (self.val() < other.val()),
    {
        proof {
            lemma_limb_order_384(self, other);
        }
        self.w2 < other.w2 || (self.w2 == other.w2 && (self.w1 < other.w1 || (self.w1
            == other.w1 && self.w0 < other.w0)))
    }

    pub fn le(self, other: U384) -> (r: bool)
        ensures
            r == (self.val() <= other.val()),
    {
        proof {
            lemma_limb_order_384(self, other);
        }
        self.w2 < other.w2 || (self.w2 == other.w2 && (self.w1 < other.w1 || (self.w1
            == other.w1 && self.w0 <= other.w0)))
    }

    /// Comparison against a small bound; when it holds, the whole value sits
    /// in the low limb.
    pub fn le384(self, b: u128) -> (r: bool)
        ensures
            r == (self.val() <= b),
            r ==> self.w2 == 0 && self.w1 == 0 && self.w0 == self.val(),
    {
        proof {
            if self.w2 > 0 {
                assert(self.w2 * b256() >= b256()) by (nonlinear_arith)
                    requires
                        self.w2 >= 1,
                ;
                assert(b256() > b128()) by (nonlinear_arith);
                lemma_u256_val_bounds(U256 { hi: self.w1, lo: self.w0 });
            }
            if self.w1 > 0 {
                assert(self.w1 * b128() >= b128()) by (nonlinear_arith)
                    requires
                        self.w1 >= 1,
                ;
                assert(self.w2 * b256() >= 0) by (nonlinear_arith)
                    requires
                        self.w2 >= 0,
                ;
            }
        }
        self.w2 == 0 && self.w1 == 0 && self.w0 <= b
    }
}

/// Value of a 256-bit number lies below 2^256.
pub proof fn lemma_u256_val_bounds(a: U256)
    ensures
        0 <= a.val() < b256(),
{
    assert(a.hi * b128() <= (b128() - 1) * b128()) by (nonlinear_arith)
        requires
            0 <= a.hi < b128(),
    ;
    assert(a.hi * b128() >= 0) by (nonlinear_arith)
        requires
            a.hi >= 0,
    ;
}

/// Value of a 384-bit number lies below 2^384.
pub proof fn lemma_u384_val_bounds(a: U384)
    ensures
        0 <= a.val() < b384(),
{
    assert(a.w2 * b256() <= (b128() - 1) * b256()) by (nonlinear_arith)
        requires
            0 <= a.w2 < b128(),
    ;
    assert(a.w2 * b256() >= 0) by (nonlinear_arith)
        requires
            a.w2 >= 0,
    ;
    assert((b128() - 1) * b256() + b256() == b384()) by (nonlinear_arith);
    lemma_u256_val_bounds(U256 { hi: a.w1, lo: a.w0 });
}

/// Limb-wise comparison agrees with value comparison.
proof fn lemma_limb_order_256(a: U256, b: U256)
    ensures
        (a.val() < b.val()) == (a.hi < b.hi || (a.hi == b.hi && a.lo < b.lo)),
        (a.val() <= b.val()) == (a.hi < b.hi || (a.hi == b.hi && a.lo <= b.lo)),
{
    if a.hi < b.hi {
        assert(a.hi * b128() + b128() <= b.hi * b128()) by (nonlinear_arith)
            requires
                a.hi + 1 <= b.hi,
        ;
    }
    if b.hi < a.hi {
        assert(b.hi * b128() + b128() <= a.hi * b128()) by (nonlinear_arith)
            requires
                b.hi + 1 <= a.hi,
        ;
    }
}

/// Limb-wise comparison agrees with value comparison.
proof fn lemma_limb_order_384(a: U384, b: U384)
    ensures
        (a.val() < b.val()) == (a.w2 < b.w2 || (a.w2 == b.w2 && (a.w1 < b.w1 || (a.w1 == b.w1
            && a.w0 < b.w0)))),
        (a.val() <= b.val()) == (a.w2 < b.w2 || (a.w2 == b.w2 && (a.w1 < b.w1 || (a.w1 == b.w1
            && a.w0 <= b.w0)))),
{
    if a.w2 < b.w2 {
        assert(a.w2 * b256() + b256() <= b.w2 * b256()) by (nonlinear_arith)
            requires
                a.w2 + 1 <= b.w2,
        ;
    }
    if b.w2 < a.w2 {
        assert(b.w2 * b256() + b256() <= a.w2 * b256()) by (nonlinear_arith)
            requires
                b.w2 + 1 <= a.w2,
        ;
    }
    lemma_limb_order_256(U256 { hi: a.w1, lo: a.w0 }, U256 { hi: b.w1, lo: b.w0 });
}

/// 128-bit addition with carry out.
fn add_with_carry(a: u128, b: u128) -> (r: (u128, bool))
    ensures
        r.0 + (if r.1 { b128() } else { 0int }) == a + b,
{
    if a <= u128::MAX - b {
        (a + b, false)
    } else {
        (a - (u128::MAX - b) - 1, true)
    }
}

/// Full 128x128 -> 256 bit multiplication.
pub fn mul_u128(a: u128, b: u128) -> (r: U256)
    ensures
        r.val() == a * b,
{
    let two64: u128 = 0x1_0000_0000_0000_0000;
    let al: u128 = a % two64;
    let ah: u128 = a / two64;
    let bl: u128 = b % two64;
    let bh: u128 = b / two64;
    proof {
        assert(al * bl < b128() && al * bh < b128() && ah * bl < b128() && ah * bh < b128())
            by (nonlinear_arith)
            requires
                0 <= al < b64() && 0 <= ah < b64() && 0 <= bl < b64() && 0 <= bh < b64(),
        ;
    }
    let pll: u128 = al * bl;
    let plh: u128 = al * bh;
    let phl: u128 = ah * bl;
    let phh: u128 = ah * bh;
    let plh_lo: u128 = (plh % two64) * two64;
    let plh_hi: u128 = plh / two64;
    let phl_lo: u128 = (phl % two64) * two64;
    let phl_hi: u128 = phl / two64;
    let (lo1, c1) = add_with_carry(pll, plh_lo);
    let (lo2, c2) = add_with_carry(lo1, phl_lo);
    proof {
        // The high limb cannot overflow: phh <= (2^64-1)^2 and each of the
        // two quotients is at most 2^64 - 2, which sums to under 2^128 - 1.
        assert(phh <= b128() - 2 * b64() + 1) by (nonlinear_arith)
            requires
                0 <= ah < b64() && 0 <= bh < b64() && phh == ah * bh,
        ;
        assert(plh_hi <= b64() - 2) by (nonlinear_arith)
            requires
                0 <= al < b64() && 0 <= bh < b64() && plh == al * bh && plh_hi == plh as int / b64(),
        ;
        assert(phl_hi <= b64() - 2) by (nonlinear_arith)
            requires
                0 <= ah < b64() && 0 <= bl < b64() && phl == ah * bl && phl_hi == phl as int / b64(),
        ;
    }
    let hi: u128 = phh + plh_hi + phl_hi + (if c1 { 1u128 } else { 0u128 }) + (if c2 {
        1u128
    } else {
        0u128
    });
    let r = U256 { hi, lo: lo2 };
    proof {
        assert(lo2 + (if c1 { b128() } else { 0int }) + (if c2 { b128() } else { 0int }) == pll
            + plh_lo + phl_lo);
        assert(r.val() == (phh + plh_hi + phl_hi) * b128() + (pll + plh_lo + phl_lo))
            by (nonlinear_arith)
            requires
                r.val() == (phh + plh_hi + phl_hi + (if c1 { 1int } else { 0int }) + (if c2 {
                    1int
                } else {
                    0int
                })) * b128() + lo2 && lo2 + (if c1 { b128() } else { 0int }) + (if c2 {
                    b128()
                } else {
                    0int
                }) == pll + plh_lo + phl_lo,
        ;
        lemma_mul_u128_correct(a as int, b as int, al as int, ah as int, bl as int, bh as int,
            r.val());
    }
    r
}

proof fn lemma_mul_u128_correct(a: int, b: int, al: int, ah: int, bl: int, bh: int, v: int)
    requires
        al == a % b64(),
        ah == a / b64(),
        bl == b % b64(),
        bh == b / b64(),
        0 <= a < b128(),
        0 <= b < b128(),
        v == (ah * bh + (al * bh) / b64() + (ah * bl) / b64()) * b128() + (al * bl + ((al * bh)
            % b64()) * b64() + ((ah * bl) % b64()) * b64()),
    ensures
        v == a * b,
{
    let t = b64();
    let plh = al * bh;
    let phl = ah * bl;
    assert(a == ah * t + al);
    assert(b == bh * t + bl);
    lemma_expand_product(ah, al, bh, bl, t);
    assert(a * b == (ah * bh) * (t * t) + plh * t + phl * t + al * bl);
    assert(t * t == b128()) by (nonlinear_arith)
        requires
            t == b64(),
    ;
    assert(plh == (plh / t) * t + plh % t);
    assert(phl == (phl / t) * t + phl % t);
    assert(plh * t == (plh / t) * b128() + (plh % t) * t) by (nonlinear_arith)
        requires
            plh == (plh / t) * t + plh % t && t * t == b128(),
    ;
    assert(phl * t == (phl / t) * b128() + (phl % t) * t) by (nonlinear_arith)
        requires
            phl == (phl / t) * t + phl % t && t * t == b128(),
    ;
    assert((ah * bh + plh / t + phl / t) * b128() == (ah * bh) * b128() + (plh / t) * b128() + (phl
        / t) * b128()) by (nonlinear_arith);
    assert((ah * bh) * (t * t) == (ah * bh) * b128()) by (nonlinear_arith)
        requires
            t * t == b128(),
    ;
}

/// Ring identity behind the schoolbook multiplication.
proof fn lemma_expand_product(ah: int, al: int, bh: int, bl: int, t: int)
    ensures
        (ah * t + al) * (bh * t + bl) == (ah * bh) * (t * t) + (al * bh) * t + (ah * bl) * t + al
            * bl,
{
    vstd::arithmetic::mul::lemma_mul_is_distributive_add(ah * t + al, bh * t, bl);
    vstd::arithmetic::mul::lemma_mul_is_distributive_add_other_way(bh * t, ah * t, al);
    vstd::arithmetic::mul::lemma_mul_is_distributive_add_other_way(bl, ah * t, al);
    // (ah*t)*(bh*t) == (ah*bh)*(t*t)
    vstd::arithmetic::mul::lemma_mul_is_associative(ah * t, bh, t);
    vstd::arithmetic::mul::lemma_mul_is_associative(ah, t, bh);
    vstd::arithmetic::mul::lemma_mul_is_commutative(t, bh);
    vstd::arithmetic::mul::lemma_mul_is_associative(ah, bh, t);
    vstd::arithmetic::mul::lemma_mul_is_associative(ah * bh, t, t);
    // (ah*t)*bl == (ah*bl)*t
    vstd::arithmetic::mul::lemma_mul_is_associative(ah, t, bl);
    vstd::arithmetic::mul::lemma_mul_is_commutative(t, bl);
    vstd::arithmetic::mul::lemma_mul_is_associative(ah, bl, t);
    // al*(bh*t) == (al*bh)*t
    vstd::arithmetic::mul::lemma_mul_is_associative(al, bh, t);
}

/// The powers of two used here, written as limb factors.
pub proof fn lemma_pow2_limbs()
    ensures
        p2(128) == b128(),
        p2(256) == b256(),
        p2(384) == b384(),
{
    vstd::arithmetic::power2::lemma2_to64();
    vstd::arithmetic::power2::lemma_pow2_adds(64, 64);
    vstd::arithmetic::power2::lemma_pow2_adds(128, 128);
    vstd::arithmetic::power2::lemma_pow2_adds(256, 128);
    assert(p2(64) == 0x1_0000_0000_0000_0000int);
    assert(p2(64) * p2(64) == b128()) by (nonlinear_arith)
        requires
            p2(64) == 0x1_0000_0000_0000_0000int,
    ;
}

/// 256-bit addition with carry out.
pub fn add_256_with_carry(a: U256, b: U256) -> (r: (U256, bool))
    ensures
        r.0.val() + (if r.1 { b256() } else { 0int }) == a.val() + b.val(),
{
    let (lo, c0) = add_with_carry(a.lo, b.lo);
    let (hi1, c1) = add_with_carry(a.hi, b.hi);
    if c0 {
        if hi1 <= u128::MAX - 1 {
            (U256 { hi: hi1 + 1, lo }, c1)
        } else {
            // hi1 == MAX, adding the carry wraps the high limb to zero.
            (U256 { hi: 0, lo }, true)
        }
    } else {
        (U256 { hi: hi1, lo }, c1)
    }
}

/// 384-bit addition with carry out.
pub fn add_384_with_carry(a: U384, b: U384) -> (r: (U384, bool))
    ensures
        r.0.val() + (if r.1 { b384() } else { 0int }) == a.val() + b.val(),
{
    let (low, c0) = add_256_with_carry(
        U256 { hi: a.w1, lo: a.w0 },
        U256 { hi: b.w1, lo: b.w0 },
    );
    let (hi1, c1) = add_with_carry(a.w2, b.w2);
    proof {
        lemma_dist_b256(a.w2 as int, b.w2 as int);
        lemma_dist_b256(hi1 as int, 1);
        lemma_dist_b256(hi1 as int, b128());
        lemma_dist_b256(u128::MAX as int, 1);
        vstd::arithmetic::mul::lemma_mul_is_commutative(b128(), b256());
    }
    if c0 {
        if hi1 <= u128::MAX - 1 {
            (U384 { w2: hi1 + 1, w1: low.hi, w0: low.lo }, c1)
        } else {
            (U384 { w2: 0, w1: low.hi, w0: low.lo }, true)
        }
    } else {
        (U384 { w2: hi1, w1: low.hi, w0: low.lo }, c1)
    }
}

/// Multiplication by 2^256 distributes over addition.
proof fn lemma_dist_b256(x: int, y: int)
    ensures
        (x + y) * b256() == x * b256() + y * b256(),
{
    vstd::arithmetic::mul::lemma_mul_is_distributive_add_other_way(b256(), x, y);
}

/// Subtraction modulo 2^256.
pub fn wrapped_sub_256(a: U256, b: U256) -> (r: U256)
    ensures
        r.val() == if b.val() <= a.val() {
            a.val() - b.val()
        } else {
            a.val() - b.val() + b256()
        },
{
    proof {
        lemma_limb_order_256(a, b);
    }
    if a.hi < b.hi || (a.hi == b.hi && a.lo < b.lo) {
        // Borrowing out of the full width.
        let d = b.sub(a);
        proof {
            lemma_u256_val_bounds(d);
        }
        // 2^256 - d.val(), with d.val() > 0.
        if d.lo == 0 {
            U256 { hi: (u128::MAX - d.hi) + 1, lo: 0 }
        } else {
            U256 { hi: u128::MAX - d.hi, lo: (u128::MAX - d.lo) + 1 }
        }
    } else {
        a.sub(b)
    }
}

/// 256x128 -> 384 bit multiplication.
pub fn mul_256_u128(a: U256, b: u128) -> (r: U384)
    ensures
        r.val() == a.val() * b,
{
    let p0 = mul_u128(a.lo, b);
    let p1 = mul_u128(a.hi, b);
    proof {
        assert(p1.val() <= (b128() - 1) * (b128() - 1)) by (nonlinear_arith)
            requires
                p1.val() == a.hi * b && 0 <= a.hi < b128() && 0 <= b < b128(),
        ;
        assert(p1.hi < b128() - 1) by (nonlinear_arith)
            requires
                p1.hi * b128() + p1.lo <= (b128() - 1) * (b128() - 1) && 0 <= p1.lo < b128()
                    && 0 <= p1.hi,
        ;
    }
    let (w1, c) = add_with_carry(p1.lo, p0.hi);
    let w2: u128 = p1.hi + (if c { 1u128 } else { 0u128 });
    let r = U384 { w2, w1, w0: p0.lo };
    proof {
        assert(w2 * b256() == p1.hi * b256() + (if c { 1int } else { 0int }) * b256())
            by (nonlinear_arith)
            requires
                w2 == p1.hi + (if c { 1int } else { 0int }),
        ;
        assert(p1.hi * b256() == (p1.hi * b128()) * b128()) by (nonlinear_arith);
        assert(r.val() == p1.val() * b128() + p0.val()) by (nonlinear_arith)
            requires
                r.val() == (p1.hi * b128()) * b128() + (if c { b128() * b128() } else { 0int })
                    + w1 * b128() + p0.lo && w1 + (if c { b128() } else { 0int }) == p1.lo
                    + p0.hi && p1.val() == p1.hi * b128() + p1.lo && p0.val() == p0.hi * b128()
                    + p0.lo && r.val() == w2 * b256() + w1 * b128() + p0.lo,
        ;
        assert(p1.val() * b128() + p0.val() == a.val() * b) by (nonlinear_arith)
            requires
                p1.val() == a.hi * b && p0.val() == a.lo * b && a.val() == a.hi * b128() + a.lo,
        ;
    }
    r
}

/// Restoring long division: 384-bit dividend, 256-bit divisor.
///
/// Returns the quotient and the remainder of exact integer division.
pub fn div_384_by_256(a: U384, d: U256) -> (r: (U384, U256))
    requires
        d.val() > 0,
    ensures
        a.val() == r.0.val() * d.val() + r.1.val(),
        0 <= r.1.val() < d.val(),
{
    let mut q = U384 { w2: 0, w1: 0, w0: 0 };
    let mut rem = U256 { hi: 0, lo: 0 };
    let mut sh = a;
    let mut i: usize = 0;
    let ghost av = a.val();
    let ghost mut pr: int = 0;
    let ghost mut rv: int = av;
    proof {
        lemma_pow2_limbs();
        lemma_u384_val_bounds(a);
        vstd::arithmetic::power2::lemma_pow2_pos(384);
        vstd::arithmetic::power2::lemma2_to64();
        assert(p2(0) == 1);
        assert(av * p2(0) == av) by (nonlinear_arith)
            requires
                p2(0) == 1,
        ;
        assert(q.val() == 0);
        vstd::arithmetic::mul::lemma_mul_basics(d.val());
    }
    while i < 384
        invariant
            i <= 384,
            d.val() > 0,
            0 <= av < p2(384),
            av == pr * p2((384 - i) as nat) + rv,
            0 <= rv < p2((384 - i) as nat),
            sh.val() == rv * p2(i as nat),
            q.val() * d.val() + rem.val() == pr,
            0 <= rem.val() < d.val(),
            0 <= pr,
            p2(128) == b128() && p2(256) == b256() && p2(384) == b384(),
        decreases 384 - i,
    {
        let ghost oldpr = pr;
        let ghost oldrv = rv;
        let ghost oldq = q.val();
        let ghost oldrem = rem.val();
        proof {
            lemma_div_step_ghost(av, oldpr, oldrv, i as int);
        }
        let ghost p = p2((383 - i) as nat);
        let ghost hb = oldrv / p;
        let ghost newrv = oldrv % p;
        // Shift the next dividend bit out of the shifter.
        let (sh2, shc) = add_384_with_carry(sh, sh);
        proof {
            lemma_u384_val_bounds(sh2);
            lemma_shift_step(av, oldpr, oldrv, i as int, sh.val(), sh2.val(), if shc {
                1int
            } else {
                0int
            });
        }
        sh = sh2;
        // rem := 2*rem + bit, then subtract d when it reaches d.
        let bit_add = U256 { hi: 0, lo: if shc { 1u128 } else { 0u128 } };
        let (r2, rc1) = add_256_with_carry(rem, rem);
        let (r2b, rc2) = add_256_with_carry(r2, bit_add);
        let rc = rc1 || rc2;
        proof {
            lemma_u256_val_bounds(rem);
            lemma_u256_val_bounds(r2b);
            assert(!(rc1 && rc2));
        }
        let sub_now = rc || d.le(r2b);
        let new_rem = if rc {
            wrapped_sub_256(r2b, d)
        } else if d.le(r2b) {
            r2b.sub(d)
        } else {
            r2b
        };
        // q := 2*q + (1 if we subtracted).
        let (q2, qc1) = add_384_with_carry(q, q);
        let qbit_add = U384 { w2: 0, w1: 0, w0: if sub_now { 1u128 } else { 0u128 } };
        let (q2b, qc2) = add_384_with_carry(q2, qbit_add);
        proof {
            lemma_pr_bound(av, oldpr, oldrv, i as int);
            // The doubled quotient cannot carry out of 384 bits.
            assert(oldq * d.val() >= oldq) by (nonlinear_arith)
                requires
                    d.val() >= 1 && oldq >= 0,
            ;
            if i + 1 < 384 {
                vstd::arithmetic::power2::lemma_pow2_strictly_increases((i + 1) as nat, 384);
            }
            vstd::arithmetic::power2::lemma_pow2_adds(1, i as nat);
            vstd::arithmetic::power2::lemma2_to64();
            assert(p2((i + 1) as nat) == 2 * p2(i as nat));
            assert(oldq < p2(i as nat));
            assert(2 * oldq + 1 < b384());
            if qc1 || qc2 {
                assert(false);
            }
        }
        proof {
            let hbv: int = if shc { 1int } else { 0int };
            let qb: int = if sub_now { 1int } else { 0int };
            assert(r2b.val() + (if rc { b256() } else { 0int }) == 2 * oldrem + hbv);
            if rc {
                // 2*rem + bit overflowed 2^256, so it certainly reached d.
                assert(2 * oldrem + hbv - d.val() < d.val());
                assert(r2b.val() < d.val());
            }
            assert(new_rem.val() == 2 * oldrem + hbv - qb * d.val());
            assert(q2b.val() == 2 * oldq + qb);
            assert(q2b.val() * d.val() == 2 * (oldq * d.val()) + qb * d.val())
                by (nonlinear_arith)
                requires
                    q2b.val() == 2 * oldq + qb,
            ;
            pr = 2 * oldpr + hb;
            rv = newrv;
            assert(q2b.val() * d.val() + new_rem.val() == pr);
        }
        q = q2b;
        rem = new_rem;
        i = i + 1;
    }
    proof {
        assert(p2(0) == 1) by {
            vstd::arithmetic::power2::lemma2_to64();
        }
        assert(pr * p2(0) == pr) by (nonlinear_arith)
            requires
                p2(0) == 1,
        ;
    }
    (q, rem)
}

/// Splitting the leading bit off the unprocessed part of the dividend.
proof fn lemma_div_step_ghost(av: int, pr: int, rv: int, i: int)
    requires
        0 <= i < 384,
        av == pr * p2((384 - i) as nat) + rv,
        0 <= rv < p2((384 - i) as nat),
        0 <= pr,
    ensures
        rv / p2((383 - i) as nat) == 0 || rv / p2((383 - i) as nat) == 1,
        rv == (rv / p2((383 - i) as nat)) * p2((383 - i) as nat) + rv % p2(
            (383 - i) as nat,
        ),
        0 <= rv % p2((383 - i) as nat) < p2((383 - i) as nat),
        av == (2 * pr + rv / p2((383 - i) as nat)) * p2((383 - i) as nat) + rv % p2(
            (383 - i) as nat,
        ),
{
    let p = p2((383 - i) as nat);
    vstd::arithmetic::power2::lemma_pow2_pos((383 - i) as nat);
    vstd::arithmetic::power2::lemma_pow2_adds(1, (383 - i) as nat);
    vstd::arithmetic::power2::lemma2_to64();
    assert(p2((384 - i) as nat) == 2 * p);
    vstd::arithmetic::div_mod::lemma_fundamental_div_mod(rv, p);
    let hb = rv / p;
    assert(hb >= 0) by {
        vstd::arithmetic::div_mod::lemma_div_is_ordered(0, rv, p);
    }
    if hb >= 2 {
        assert(hb * p >= 2 * p) by (nonlinear_arith)
            requires
                hb >= 2 && p > 0,
        ;
    }
    assert(pr * (2 * p) == (2 * pr) * p) by (nonlinear_arith);
    assert((2 * pr + hb) * p == (2 * pr) * p + hb * p) by (nonlinear_arith);
}

/// The shifter tracks the unprocessed dividend bits, scaled into place.
proof fn lemma_shift_step(av: int, pr: int, rv: int, i: int, shv: int, sh2v: int, carry: int)
    requires
        0 <= i < 384,
        av == pr * p2((384 - i) as nat) + rv,
        0 <= rv < p2((384 - i) as nat),
        0 <= pr,
        shv == rv * p2(i as nat),
        carry == 0 || carry == 1,
        sh2v + carry * b384() == 2 * shv,
        0 <= sh2v < b384(),
    ensures
        carry == rv / p2((383 - i) as nat),
        sh2v == (rv % p2((383 - i) as nat)) * p2((i + 1) as nat),
{
    let p = p2((383 - i) as nat);
    lemma_pow2_limbs();
    lemma_div_step_ghost(av, pr, rv, i);
    let hb = rv / p;
    let rv2 = rv % p;
    vstd::arithmetic::power2::lemma_pow2_adds((383 - i) as nat, (i + 1) as nat);
    vstd::arithmetic::power2::lemma_pow2_adds(1, i as nat);
    vstd::arithmetic::power2::lemma_pow2_pos((i + 1) as nat);
    vstd::arithmetic::power2::lemma2_to64();
    // 2*shv == (hb*p + rv2) * 2^(i+1) == hb*2^384 + rv2*2^(i+1)
    assert(2 * shv == rv * (2 * p2(i as nat))) by (nonlinear_arith)
        requires
            shv == rv * p2(i as nat),
    ;
    assert(rv * (2 * p2(i as nat)) == rv * p2((i + 1) as nat));
    assert(rv * p2((i + 1) as nat) == (hb * p) * p2((i + 1) as nat) + rv2 * p2(
        (i + 1) as nat,
    )) by (nonlinear_arith)
        requires
            rv == hb * p + rv2,
    ;
    assert((hb * p) * p2((i + 1) as nat) == hb * (p * p2((i + 1) as nat)))
        by (nonlinear_arith);
    assert(p * p2((i + 1) as nat) == p2(384));
    // rv2 * 2^(i+1) < 2^384
    assert(rv2 * p2((i + 1) as nat) < p * p2((i + 1) as nat)) by (nonlinear_arith)
        requires
            0 <= rv2 < p && p2((i + 1) as nat) > 0,
    ;
    assert(rv2 * p2((i + 1) as nat) >= 0) by (nonlinear_arith)
        requires
            rv2 >= 0 && p2((i + 1) as nat) > 0,
    ;
    // Both decompositions of 2*shv by 2^384 agree.
    if hb == 0 {
        if carry == 1 {
            assert(false);
        }
    } else {
        if carry == 0 {
            assert(false);
        }
    }
}

/// Exact `(a * b) / d` over 128-bit operands, through a 256-bit product.
pub fn mul_div_u128(a: u128, b: u128, d: u128) -> (q: U256)
    requires
        d > 0,
    ensures
        q.val() == (a * b) / (d as int),
{
    let p = mul_u128(a, b);
    let (q, rest) = div_384_by_256(U384::from_u256(p), U256::from_u128(d));
    proof {
        vstd::arithmetic::div_mod::lemma_fundamental_div_mod_converse(
            p.val(),
            d as int,
            q.val(),
            rest.val(),
        );
        lemma_quotient_fits_256(p.val(), d as int, q.val());
    }
    q.to_u256()
}

/// Exact `a / d` over 256-bit operands.
pub fn div_u256(a: U256, d: U256) -> (q: U256)
    requires
        d.val() > 0,
    ensures
        q.val() == a.val() / d.val(),
{
    let (q, rest) = div_384_by_256(U384::from_u256(a), d);
    proof {
        vstd::arithmetic::div_mod::lemma_fundamental_div_mod_converse(
            a.val(),
            d.val(),
            q.val(),
            rest.val(),
        );
        lemma_u256_val_bounds(a);
        lemma_quotient_fits_256(a.val(), d.val(), q.val());
    }
    q.to_u256()
}

/// A quotient of a value under 2^256 is itself under 2^256.
proof fn lemma_quotient_fits_256(x: int, d: int, q: int)
    requires
        d >= 1,
        0 <= x < b256(),
        q == x / d,
    ensures
        0 <= q < b256(),
{
    vstd::arithmetic::div_mod::lemma_div_is_ordered(0, x, d);
    assert(q <= x) by {
        vstd::arithmetic::div_mod::lemma_fundamental_div_mod(x, d);
        if q > x {
            assert(q * d >= q) by (nonlinear_arith)
                requires
                    q >= 0 && d >= 1,
            ;
        }
    }
}

/// `(a * b) / d` capped by `a` when `b <= d`.
pub fn mul_div_capped(a: u128, b: u128, d: u128) -> (r: u128)
    requires
        d > 0,
        b <= d,
    ensures
        r == (a * b) / (d as int),
        r <= a,
{
    let q = mul_div_u128(a, b, d);
    proof {
        assert(a * b <= a * d) by (nonlinear_arith)
            requires
                b <= d && a >= 0,
        ;
        assert(a * b >= 0) by (nonlinear_arith)
            requires
                a >= 0 && b >= 0,
        ;
        vstd::arithmetic::div_mod::lemma_div_is_ordered(0, a * b, d as int);
        vstd::arithmetic::div_mod::lemma_div_is_ordered(a * b, a * d, d as int);
        vstd::arithmetic::div_mod::lemma_div_multiples_vanish(a as int, d as int);
        assert(a * d == d * a) by (nonlinear_arith);
    }
    q.to_u128()
}

/// `(a * b) / d` capped by `b` when `a <= d`.
pub fn mul_div_swap_capped(a: u128, b: u128, d: u128) -> (r: u128)
    requires
        d > 0,
        a <= d,
    ensures
        r == (a * b) / (d as int),
        r <= b,
{
    let q = mul_div_u128(a, b, d);
    proof {
        assert(a * b <= d * b) by (nonlinear_arith)
            requires
                a <= d && b >= 0,
        ;
        assert(a * b >= 0) by (nonlinear_arith)
            requires
                a >= 0 && b >= 0,
        ;
        vstd::arithmetic::div_mod::lemma_div_is_ordered(0, a * b, d as int);
        vstd::arithmetic::div_mod::lemma_div_is_ordered(a * b, d * b, d as int);
        vstd::arithmetic::div_mod::lemma_div_multiples_vanish(b as int, d as int);
    }
    q.to_u128()
}

/// The processed prefix of the dividend stays below 2^i.
proof fn lemma_pr_bound(av: int, pr: int, rv: int, i: int)
    requires
        0 <= i < 384,
        0 <= pr,
        0 <= rv,
        av == pr * p2((384 - i) as nat) + rv,
        av < p2(384),
    ensures
        pr < p2(i as nat),
{
    vstd::arithmetic::power2::lemma_pow2_adds(i as nat, (384 - i) as nat);
    vstd::arithmetic::power2::lemma_pow2_pos((384 - i) as nat);
    vstd::arithmetic::power2::lemma_pow2_pos(i as nat);
    if pr >= p2(i as nat) {
        assert(pr * p2((384 - i) as nat) >= p2(i as nat) * p2((384 - i) as nat))
            by (nonlinear_arith)
            requires
                pr >= p2(i as nat) && p2((384 - i) as nat) > 0,
        ;
        assert(false);
    }
}

} // verus!
