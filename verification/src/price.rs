//! Bin prices in Q128.128 fixed point.
//!
//! The implied mid price of bin `i` is `((10000 + bin_step)/10000)^(i - 2^23)`
//! in token-y atomic units per token-x atomic unit, held as a 256-bit Q128.128
//! number.  Prices above the neutral bin are built by repeated scaling up,
//! prices below by repeated scaling down, each step an exact floor division,
//! matching the reciprocal-power rule that keeps precision below neutral.

use vstd::prelude::*;
use crate::wide::{U256, U384, b128, b256, div_384_by_256, mul_256_u128, lemma_u256_val_bounds};

verus! {

/// The neutral bin id, 2^23.
pub open spec fn neutral_id() -> int {
    0x80_0000int
}

/// The neutral bin id as a run-time value.
pub fn neutral_id_exec() -> (r: u32)
    ensures
        r == neutral_id(),
{
    0x80_0000u32
}

/// Price `e` bins above neutral: start at 1.0 and scale up `e` times.
pub open spec fn q128_above(s: int, e: nat) -> int
    decreases e,
{
    if e == 0 {
        b128()
    } else {
        (q128_above(s, (e - 1) as nat) * (10000 + s)) / 10000
    }
}

/// Price `e` bins below neutral: start at 1.0 and scale down `e` times.
pub open spec fn q128_below(s: int, e: nat) -> int
    decreases e,
{
    if e == 0 {
        b128()
    } else {
        (q128_below(s, (e - 1) as nat) * 10000) / (10000 + s)
    }
}

/// The Q128.128 price of a bin, as an unbounded integer.
pub open spec fn price_q128_spec(id: int, s: int) -> int {
    if id >= neutral_id() {
        q128_above(s, (id - neutral_id()) as nat)
    } else {
        q128_below(s, (neutral_id() - id) as nat)
    }
}

/// Prices below neutral never exceed 1.0.
pub proof fn lemma_below_at_most_one(s: int, e: nat)
    requires
        0 <= s,
    ensures
        0 <= q128_below(s, e) <= b128(),
    decreases e,
{
    if e > 0 {
        lemma_below_at_most_one(s, (e - 1) as nat);
        let p = q128_below(s, (e - 1) as nat);
        assert(p * 10000 >= 0) by (nonlinear_arith)
            requires
                p >= 0,
        ;
        vstd::arithmetic::div_mod::lemma_div_is_ordered(0, p * 10000, 10000 + s);
        assert((p * 10000) / (10000 + s) <= (p * (10000 + s)) / (10000 + s)) by {
            assert(p * 10000 <= p * (10000 + s)) by (nonlinear_arith)
                requires
                    p >= 0 && s >= 0,
            ;
            vstd::arithmetic::div_mod::lemma_div_is_ordered(
                p * 10000,
                p * (10000 + s),
                10000 + s,
            );
        }
        vstd::arithmetic::div_mod::lemma_div_multiples_vanish(p, 10000 + s);
    }
}

/// Prices above neutral never drop under 1.0.
pub proof fn lemma_above_at_least_one(s: int, e: nat)
    requires
        0 <= s,
    ensures
        q128_above(s, e) >= b128(),
    decreases e,
{
    if e > 0 {
        lemma_above_at_least_one(s, (e - 1) as nat);
        let p = q128_above(s, (e - 1) as nat);
        assert(p * 10000 <= p * (10000 + s)) by (nonlinear_arith)
            requires
                p >= 0 && s >= 0,
        ;
        vstd::arithmetic::div_mod::lemma_div_is_ordered(
            p * 10000,
            p * (10000 + s),
            10000,
        );
        vstd::arithmetic::div_mod::lemma_div_by_multiple(p, 10000);
    }
}

/// One scaling-up step can only raise the price.
pub proof fn lemma_step_up_nondecreasing(s: int, p: int)
    requires
        0 <= s,
        0 <= p,
    ensures
        (p * (10000 + s)) / 10000 >= p,
{
    assert(p * 10000 <= p * (10000 + s)) by (nonlinear_arith)
        requires
            p >= 0 && s >= 0,
    ;
    vstd::arithmetic::div_mod::lemma_div_is_ordered(p * 10000, p * (10000 + s), 10000);
    vstd::arithmetic::div_mod::lemma_div_by_multiple(p, 10000);
}

/// One scaling-up step strictly raises a price of at least 1.0.
pub proof fn lemma_step_up_strict(s: int, p: int)
    requires
        1 <= s,
        10000 <= p,
    ensures
        (p * (10000 + s)) / 10000 > p,
{
    assert(p * (10000 + s) >= (p + 1) * 10000) by (nonlinear_arith)
        requires
            p >= 10000 && s >= 1,
    ;
    vstd::arithmetic::div_mod::lemma_div_is_ordered((p + 1) * 10000, p * (10000 + s), 10000);
    vstd::arithmetic::div_mod::lemma_div_by_multiple(p + 1, 10000);
}

/// One scaling-down step can only lower the price, strictly so when the
/// price is still positive.
pub proof fn lemma_step_down_decreasing(s: int, p: int)
    requires
        1 <= s,
        0 <= p,
    ensures
        (p * 10000) / (10000 + s) <= p,
        p > 0 ==> (p * 10000) / (10000 + s) < p,
{
    assert(p * 10000 <= p * (10000 + s)) by (nonlinear_arith)
        requires
            p >= 0 && s >= 0,
    ;
    vstd::arithmetic::div_mod::lemma_div_is_ordered(p * 10000, p * (10000 + s), 10000 + s);
    vstd::arithmetic::div_mod::lemma_div_multiples_vanish(p, 10000 + s);
    if p > 0 {
        assert(p * 10000 < p * (10000 + s)) by (nonlinear_arith)
            requires
                p >= 1 && s >= 1,
        ;
        // floor((p*10000)/(10000+s)) < p since p*10000 < p*(10000+s).
        let q = (p * 10000) / (10000 + s);
        vstd::arithmetic::div_mod::lemma_fundamental_div_mod(p * 10000, 10000 + s);
        if q >= p {
            assert(q * (10000 + s) >= p * (10000 + s)) by (nonlinear_arith)
                requires
                    q >= p && s >= 1,
            ;
        }
    }
}

/// The bin price never falls as the id rises.
pub proof fn lemma_price_nondecreasing_step(s: int, id: int)
    requires
        1 <= s,
        0 <= id,
    ensures
        price_q128_spec(id, s) <= price_q128_spec(id + 1, s),
{
    if id >= neutral_id() {
        let e = (id - neutral_id()) as nat;
        lemma_above_at_least_one(s, e);
        lemma_step_up_nondecreasing(s, q128_above(s, e));
    } else {
        let e = (neutral_id() - id) as nat;
        // price(id) is one scaling-down step from price(id + 1).
        lemma_below_at_most_one(s, (e - 1) as nat);
        lemma_step_down_decreasing(s, q128_below(s, (e - 1) as nat));
    }
}

/// Prices never fall as the id rises, over any distance.
pub proof fn lemma_price_nondecreasing(s: int, id1: int, id2: int)
    requires
        1 <= s,
        0 <= id1 <= id2,
    ensures
        price_q128_spec(id1, s) <= price_q128_spec(id2, s),
    decreases id2 - id1,
{
    if id1 < id2 {
        lemma_price_nondecreasing(s, id1, id2 - 1);
        lemma_price_nondecreasing_step(s, id2 - 1);
    }
}

/// The bin price is strictly monotonic in the bin id, as long as the price
/// has not collapsed to zero at the lower id.
pub proof fn lemma_price_strictly_monotonic(s: int, id1: int, id2: int)
    requires
        1 <= s,
        0 <= id1 < id2,
        price_q128_spec(id1, s) > 0,
    ensures
        price_q128_spec(id1, s) < price_q128_spec(id2, s),
    decreases id2 - id1,
{
    if id2 - id1 > 1 {
        lemma_price_strictly_monotonic(s, id1, id2 - 1);
        lemma_price_nondecreasing_step(s, id2 - 1);
    } else {
        // A single step.
        if id1 >= neutral_id() {
            let e = (id1 - neutral_id()) as nat;
            lemma_above_at_least_one(s, e);
            lemma_step_up_strict(s, q128_above(s, e));
        } else {
            let e = (neutral_id() - id1) as nat;
            let p_up = q128_below(s, (e - 1) as nat);
            lemma_below_at_most_one(s, (e - 1) as nat);
            lemma_step_down_decreasing(s, p_up);
        }
    }
}

/// The exact Q128.128 bin price, or `None` when it exceeds 256 bits.
///
/// Walks one scaling step per bin away from neutral, so it is intended for
/// ids in the working neighbourhood of the active bin.
pub fn price_from_id(id: u32, bin_step: u16) -> (r: Option<U256>)
    ensures
        match r {
            Some(p) => p.val() == price_q128_spec(id as int, bin_step as int) && 0 <= p.val()
                < b256(),
            None => price_q128_spec(id as int, bin_step as int) >= b256(),
        },
{
    let neutral = neutral_id_exec();
    let m: u128 = 10000 + (bin_step as u128);
    if id >= neutral {
        let e: u32 = id - neutral;
        let mut p = U256 { hi: 1, lo: 0 };
        let mut k: u32 = 0;
        proof {
            assert(p.val() == b128()) by (nonlinear_arith)
                requires
                    p.val() == 1int * b128() + 0,
            ;
        }
        while k < e
            invariant
                k <= e,
                m == 10000 + bin_step,
                id >= neutral_id(),
                e == id - neutral_id(),
                p.val() == q128_above(bin_step as int, k as nat),
                0 <= p.val() < b256(),
            decreases e - k,
        {
            let prod = mul_256_u128(p, m);
            let (q, rest) = div_384_by_256(prod, U256 { hi: 0, lo: 10000 });
            proof {
                vstd::arithmetic::div_mod::lemma_fundamental_div_mod_converse(
                    prod.val(),
                    10000,
                    q.val(),
                    rest.val(),
                );
                assert(q.val() == (p.val() * m) / 10000);
            }
            if !q.fits_u256() {
                proof {
                    assert(q.val() >= b256());
                    assert(q.val() == q128_above(bin_step as int, (k + 1) as nat));
                    lemma_price_overflow_sticks(bin_step as int, (k + 1) as nat,
                        (e - k - 1) as nat);
                    assert((k + 1) as nat + (e - k - 1) as nat == e as nat);
                    assert(q128_above(bin_step as int, e as nat) >= b256());
                    assert(price_q128_spec(id as int, bin_step as int) == q128_above(
                        bin_step as int, e as nat));
                }
                return None;
            }
            p = q.to_u256();
            k = k + 1;
        }
        Some(p)
    } else {
        let e: u32 = neutral - id;
        let mut p = U256 { hi: 1, lo: 0 };
        let mut k: u32 = 0;
        proof {
            assert(p.val() == b128()) by (nonlinear_arith)
                requires
                    p.val() == 1int * b128() + 0,
            ;
            lemma_u256_val_bounds(p);
        }
        while k < e
            invariant
                k <= e,
                m == 10000 + bin_step,
                id < neutral_id(),
                e == neutral_id() - id,
                p.val() == q128_below(bin_step as int, k as nat),
                0 <= p.val() <= b128(),
            decreases e - k,
        {
            let prod = mul_256_u128(p, 10000);
            let (q, rest) = div_384_by_256(prod, U256 { hi: 0, lo: m });
            proof {
                vstd::arithmetic::div_mod::lemma_fundamental_div_mod_converse(
                    prod.val(),
                    m as int,
                    q.val(),
                    rest.val(),
                );
                assert(q.val() == (p.val() * 10000) / (10000 + bin_step));
                lemma_below_at_most_one(bin_step as int, (k + 1) as nat);
            }
            p = q.to_u256();
            k = k + 1;
        }
        proof {
            lemma_below_at_most_one(bin_step as int, e as nat);
            assert(b128() < b256()) by (nonlinear_arith);
        }
        Some(p)
    }
}

/// Once an intermediate price exceeds 256 bits, every later price does too.
proof fn lemma_price_overflow_sticks(s: int, e0: nat, extra: nat)
    requires
        0 <= s,
        q128_above(s, e0) >= b256(),
    ensures
        q128_above(s, (e0 + extra)) >= b256(),
    decreases extra,
{
    if extra > 0 {
        lemma_price_overflow_sticks(s, e0, (extra - 1) as nat);
        let p = q128_above(s, (e0 + extra - 1) as nat);
        lemma_step_up_nondecreasing(s, p);
        assert((e0 + extra - 1) as nat + 1 == e0 + extra);
    }
}

/// Scale a 384-bit value down by 2^128, flooring.
pub fn shift_down_128(x: U384) -> (r: U256)
    ensures
        r.val() == x.val() / b128(),
{
    let r = U256 { hi: x.w2, lo: x.w1 };
    proof {
        assert(x.val() == r.val() * b128() + x.w0) by (nonlinear_arith)
            requires
                x.val() == x.w2 * b256() + x.w1 * b128() + x.w0 && r.val() == x.w2 * b128()
                    + x.w1 && b256() == b128() * b128(),
        ;
        vstd::arithmetic::div_mod::lemma_fundamental_div_mod_converse(
            x.val(),
            b128(),
            r.val(),
            x.w0 as int,
        );
    }
    r
}

} // verus!
