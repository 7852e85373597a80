//! The portfolio decision engine: derived quantities and the state machine
//! that turns a reference quote and a ladder snapshot into one intent.
//!
//! All fractions are parts per million; every division floors.  Price
//! comparisons are done on cross-multiplied integers, so they are exact.

use vstd::prelude::*;
use crate::portfolio::{Bin, Portfolio, DexView, find_bin_spec, sum_x, sum_y, lemma_sum_bounds, lemma_sum_nonneg};
use crate::price::{price_q128_spec, price_from_id};
use crate::wide::{U256, U384, b128, b256, mul_u128, mul_256_u128, mul_div_u128, mul_div_capped, mul_div_swap_capped, div_384_by_256};
use crate::engine::Wanted;

verus! {

/// 10^18: the scale of wad prices.
pub open spec fn wad() -> int {
    1_000_000_000_000_000_000int
}

/// Saturation bound for relative price deviations, in ppm.
pub open spec fn delta_sat() -> int {
    0x8000_0000_0000_0000int
}

/// Saturation bound for taker scalings, in ppm.
pub open spec fn scale_sat() -> int {
    0x100_0000_0000int
}

/// 10^e.
pub open spec fn pow10(e: nat) -> int
    decreases e,
{
    if e == 0 {
        1
    } else {
        10 * pow10((e - 1) as nat)
    }
}

/// min over mathematical integers.
pub open spec fn imin(a: int, b: int) -> int {
    if a <= b {
        a
    } else {
        b
    }
}

/// max over mathematical integers.
pub open spec fn imax(a: int, b: int) -> int {
    if a >= b {
        a
    } else {
        b
    }
}

// ---------------------------------------------------------------------------
// Derived quantities, as specification functions over the engine inputs.
// ---------------------------------------------------------------------------

impl Portfolio {
    /// The Q128.128 price of the active bin.
    pub open spec fn s_px(self, dex: DexView) -> int {
        price_q128_spec(dex.active_id as int, dex.bin_step as int)
    }

    /// Wad-price multiplier: 10^(x_decimals - y_decimals) * 10^18.
    pub open spec fn s_kfactor(self) -> int {
        pow10((self.x_decimals - self.y_decimals) as nat) * wad()
    }

    /// The human-readable wad price of a bin.
    pub open spec fn s_fpx(self, dex: DexView, id: int) -> int {
        (price_q128_spec(id, dex.bin_step as int) * self.s_kfactor()) / b128()
    }

    pub open spec fn s_x_amt(self) -> int {
        sum_x(self.positions@) + self.x_free
    }

    pub open spec fn s_y_amt(self) -> int {
        sum_y(self.positions@) + self.y_free
    }

    /// The x holdings valued in y units at the active-bin price.
    pub open spec fn s_implied_x(self, dex: DexView) -> int {
        (self.s_px(dex) * self.s_x_amt()) / b128()
    }

    pub open spec fn s_total(self, dex: DexView) -> int {
        self.s_implied_x(dex) + self.s_y_amt()
    }

    /// Both pool quotes sit inside the tolerated band around the reference.
    pub open spec fn s_in_band(self, cb: int, ca: int, dex: DexView) -> bool {
        let mlb = self.config.maker_loss_bps as int;
        dex.cur_bid * 10000 < cb * (10000 + mlb) && dex.cur_ask * 10000 > ca * (10000 - mlb)
    }

    /// The band with one extra basis point of buffer on each side.
    pub open spec fn s_in_buffered_band(self, cb: int, ca: int, dex: DexView) -> bool {
        let mlb = self.config.maker_loss_bps as int;
        dex.cur_bid * 100_000_000 < cb * ((10000 + mlb) * 9999) && dex.cur_ask * 100_000_000 > ca
            * ((10000 - mlb) * 10001)
    }

    /// The pool ask is under the taker buy threshold.
    pub open spec fn s_underpriced(self, cb: int, dex: DexView) -> bool {
        dex.cur_ask * 10000 < cb * (10000 - self.config.taker_profit_bps)
    }

    /// The pool bid is over the taker sell threshold.
    pub open spec fn s_overpriced(self, ca: int, dex: DexView) -> bool {
        dex.cur_bid * 10000 > ca * (10000 + self.config.taker_profit_bps)
    }

    pub open spec fn s_cex_mid(self, cb: int, ca: int) -> int {
        (cb + ca) / 2
    }

    /// Price skew in ppm: how overpriced the pool is against the reference,
    /// scaled and clamped into [0, 1].
    pub open spec fn s_px_skew(self, cb: int, ca: int, dex: DexView) -> int {
        px_skew_ppm_spec(
            self.s_fpx(dex, dex.active_id as int),
            self.s_cex_mid(cb, ca),
            self.config.px_scaling_factor_ppm as int,
        )
    }

    /// Inventory skew in ppm: the value fraction held in token x.
    pub open spec fn s_x_skew(self, dex: DexView) -> int {
        (self.s_implied_x(dex) * 1_000_000) / self.s_total(dex)
    }

    /// The blended directional skew in ppm.
    pub open spec fn s_dir_skew(self, cb: int, ca: int, dex: DexView) -> int {
        let pxf = self.config.px_skew_factor_ppm as int;
        let pf = self.config.portfolio_skew_factor_ppm as int;
        (pxf * self.s_px_skew(cb, ca, dex) + pf * self.s_x_skew(dex)) / (pxf + pf)
    }

    /// Budget deployable on the x side, valued in y units.
    pub open spec fn s_x_depl_in_y(self, cb: int, ca: int, dex: DexView) -> int {
        let lim = (self.s_total(dex) * self.s_dir_skew(cb, ca, dex)) / 1_000_000;
        (imin(self.s_implied_x(dex), lim) * (1_000_000 - self.config.token_x_reserve_ppm))
            / 1_000_000
    }

    /// Budget deployable on the y side.
    pub open spec fn s_y_depl(self, cb: int, ca: int, dex: DexView) -> int {
        let lim = (self.s_total(dex) * (1_000_000 - self.s_dir_skew(cb, ca, dex))) / 1_000_000;
        (imin(self.s_y_amt(), lim) * (1_000_000 - self.config.token_y_reserve_ppm)) / 1_000_000
    }

    /// Budget deployable on the x side, in x units.
    pub open spec fn s_x_depl(self, cb: int, ca: int, dex: DexView) -> int {
        (self.s_x_depl_in_y(cb, ca, dex) * b128()) / self.s_px(dex)
    }

    /// The active-bin fit of the two budgets.
    pub open spec fn s_active_fit(self, cb: int, ca: int, dex: DexView) -> (int, int) {
        Self::ratio_spec(
            self.s_x_depl(cb, ca, dex),
            self.s_y_depl(cb, ca, dex),
            dex.active_x as int,
            dex.active_y as int,
        )
    }

    /// Whether the engine quotes the active bin this round.
    pub open spec fn s_quote_active(self, cb: int, ca: int, dex: DexView) -> bool {
        self.s_in_band(cb, ca, dex) && (find_bin_spec(self.positions@, dex.active_id) is Some
            || self.s_in_buffered_band(cb, ca, dex))
    }

    /// Budget left on the x side after the active-bin fit is reserved.
    pub open spec fn s_rem_x(self, cb: int, ca: int, dex: DexView) -> int {
        if self.s_quote_active(cb, ca, dex) {
            self.s_x_depl(cb, ca, dex) - self.s_active_fit(cb, ca, dex).0
        } else {
            self.s_x_depl(cb, ca, dex)
        }
    }

    /// Budget left on the y side after the active-bin fit is reserved.
    pub open spec fn s_rem_y(self, cb: int, ca: int, dex: DexView) -> int {
        if self.s_quote_active(cb, ca, dex) {
            self.s_y_depl(cb, ca, dex) - self.s_active_fit(cb, ca, dex).1
        } else {
            self.s_y_depl(cb, ca, dex)
        }
    }

    /// My share of the active bin, zero when I do not own it.
    pub open spec fn s_my_active(self, dex: DexView) -> (int, int) {
        match find_bin_spec(self.positions@, dex.active_id) {
            Some(b) => (b.x as int, b.y as int),
            None => (0, 0),
        }
    }

    /// Taker buy sizing: scaling, target value, and the clipped x out.
    pub open spec fn s_buy_scaling(self, cb: int, dex: DexView) -> int {
        taker_scaling_spec(
            self.config.taker_scaling_factor_ppm as int,
            cb * (10000 - self.config.taker_profit_bps),
            dex.cur_ask * 10000,
        )
    }

    pub open spec fn s_buy_target(self, cb: int, ca: int, dex: DexView) -> int {
        let frac = imax(
            imin(1_000_000, (self.config.max_skew_ppm * self.s_buy_scaling(cb, dex)) / 1_000_000),
            self.s_x_skew(dex),
        );
        (self.s_total(dex) * frac) / 1_000_000
    }

    /// The unclipped buy amount in x units.
    pub open spec fn s_buy_x_raw(self, cb: int, ca: int, dex: DexView) -> int {
        if self.s_buy_target(cb, ca, dex) > self.s_implied_x(dex) {
            ((self.s_buy_target(cb, ca, dex) - self.s_implied_x(dex)) * b128()) / self.s_px(dex)
        } else {
            0
        }
    }

    pub open spec fn s_buy_x_out(self, cb: int, ca: int, dex: DexView) -> int {
        imin(self.s_buy_x_raw(cb, ca, dex), dex.active_x - self.s_my_active(dex).0)
    }

    pub open spec fn s_buy_branch(self, cb: int, ca: int, dex: DexView) -> bool {
        !self.s_in_band(cb, ca, dex) && self.s_underpriced(cb, dex) && self.s_x_skew(dex)
            < self.config.max_skew_ppm
    }

    pub open spec fn s_buy_fires(self, cb: int, ca: int, dex: DexView) -> bool {
        self.s_buy_branch(cb, ca, dex) && self.s_buy_x_out(cb, ca, dex)
            > self.config.token_x_dust
    }

    /// Taker sell sizing.
    pub open spec fn s_sell_scaling(self, ca: int, dex: DexView) -> int {
        taker_scaling_spec(
            self.config.taker_scaling_factor_ppm as int,
            dex.cur_bid * 10000,
            ca * (10000 + self.config.taker_profit_bps),
        )
    }

    pub open spec fn s_sell_target(self, cb: int, ca: int, dex: DexView) -> int {
        let frac = imax(
            imin(
                1_000_000,
                (self.config.max_skew_ppm * self.s_sell_scaling(ca, dex)) / 1_000_000,
            ),
            1_000_000 - self.s_x_skew(dex),
        );
        (self.s_total(dex) * frac) / 1_000_000
    }

    pub open spec fn s_sell_y_out(self, cb: int, ca: int, dex: DexView) -> int {
        let raw = if self.s_sell_target(cb, ca, dex) > self.s_y_amt() {
            self.s_sell_target(cb, ca, dex) - self.s_y_amt()
        } else {
            0
        };
        imin(raw, dex.active_y - self.s_my_active(dex).1)
    }

    pub open spec fn s_sell_branch(self, cb: int, ca: int, dex: DexView) -> bool {
        !self.s_in_band(cb, ca, dex) && !(self.s_underpriced(cb, dex) && self.s_x_skew(dex)
            < self.config.max_skew_ppm) && self.s_overpriced(ca, dex) && self.s_x_skew(dex)
            > 1_000_000 - self.config.max_skew_ppm
    }

    pub open spec fn s_sell_fires(self, cb: int, ca: int, dex: DexView) -> bool {
        self.s_sell_branch(cb, ca, dex) && self.s_sell_y_out(cb, ca, dex)
            > self.config.token_y_dust
    }

    /// The periodic rebalance is due.
    pub open spec fn s_reb_due(self, now: u64) -> bool {
        now > self.last_rebalance && now - self.last_rebalance > 60 * (
        self.config.rebalance_interval as int)
    }

    /// Rebalance sell sizing: too much x, dump some for y.
    pub open spec fn s_reb_sell_branch(self, cb: int, ca: int, dex: DexView) -> bool {
        self.s_dir_skew(cb, ca, dex) > self.config.max_skew_ppm
    }

    pub open spec fn s_reb_frac(self, scaling: int) -> int {
        imin(500_000, ((1_000_000 - self.config.max_skew_ppm) * scaling) / 1_000_000)
    }

    pub open spec fn s_reb_sell_y_out(self, cb: int, ca: int, dex: DexView) -> int {
        let scaling = (self.s_dir_skew(cb, ca, dex) * 1_000_000) / (
        self.config.max_skew_ppm as int);
        let tgt = (self.s_total(dex) * self.s_reb_frac(scaling)) / 1_000_000;
        let raw = if tgt > self.s_y_amt() {
            tgt - self.s_y_amt()
        } else {
            0
        };
        imin(raw, dex.active_y - self.s_my_active(dex).1)
    }

    pub open spec fn s_reb_sell_fires(self, cb: int, ca: int, dex: DexView, now: u64) -> bool {
        self.s_reb_due(now) && self.s_reb_sell_branch(cb, ca, dex) && self.s_reb_sell_y_out(
            cb,
            ca,
            dex,
        ) > self.config.token_y_dust
    }

    /// Rebalance buy sizing: too much y, buy some x.
    pub open spec fn s_reb_buy_branch(self, cb: int, ca: int, dex: DexView) -> bool {
        !self.s_reb_sell_branch(cb, ca, dex) && self.s_dir_skew(cb, ca, dex) < 1_000_000
            - self.config.max_skew_ppm
    }

    pub open spec fn s_reb_buy_tgt(self, cb: int, ca: int, dex: DexView) -> int {
        let scaling = ((1_000_000 - self.s_dir_skew(cb, ca, dex)) * 1_000_000) / (
        self.config.max_skew_ppm as int);
        (self.s_total(dex) * self.s_reb_frac(scaling)) / 1_000_000
    }

    pub open spec fn s_reb_buy_x_out(self, cb: int, ca: int, dex: DexView) -> int {
        let tgt = self.s_reb_buy_tgt(cb, ca, dex);
        let raw = if tgt > self.s_implied_x(dex) {
            ((tgt - self.s_implied_x(dex)) * b128()) / self.s_px(dex)
        } else {
            0
        };
        imin(raw, dex.active_x - self.s_my_active(dex).0)
    }

    pub open spec fn s_reb_buy_fires(self, cb: int, ca: int, dex: DexView, now: u64) -> bool {
        self.s_reb_due(now) && self.s_reb_buy_branch(cb, ca, dex) && self.s_reb_buy_x_out(
            cb,
            ca,
            dex,
        ) > self.config.token_x_dust
    }

    /// Any taker leg fires this round.
    pub open spec fn s_any_take_fires(self, cb: int, ca: int, dex: DexView, now: u64) -> bool {
        ||| self.s_buy_fires(cb, ca, dex)
        ||| self.s_sell_fires(cb, ca, dex)
        ||| self.s_reb_sell_fires(cb, ca, dex, now)
        ||| self.s_reb_buy_fires(cb, ca, dex, now)
    }

    /// The wanted-positions list handed to the diff, in build order: the
    /// active-bin fit, then a one-sided neighbour bin when the fit is
    /// essentially one-sided, unless reduce-only drops everything.
    pub open spec fn s_wanted(self, cb: int, ca: int, dex: DexView) -> Seq<Wanted> {
        if self.config.reduce_only {
            Seq::empty()
        } else if !self.s_quote_active(cb, ca, dex) {
            Seq::empty()
        } else {
            let fit = self.s_active_fit(cb, ca, dex);
            let base = seq![(dex.active_id, fit.0 as u128, fit.1 as u128)];
            let mlb = self.config.maker_loss_bps as int;
            if fit.0 < self.config.token_x_dust && fit.1 > self.config.token_y_dust {
                // One-sided in y: add an ask-side bin above the active bin.
                if self.s_fpx(dex, dex.active_id + 1) * 10000 > ca * (10000 - mlb) {
                    base + seq![
                        ((dex.active_id + 1) as u32, self.s_rem_x(cb, ca, dex) as u128, 0u128),
                    ]
                } else if self.s_fpx(dex, dex.active_id + 2) * 10000 > ca * (10000 - mlb) {
                    base + seq![
                        ((dex.active_id + 2) as u32, self.s_rem_x(cb, ca, dex) as u128, 0u128),
                    ]
                } else {
                    base
                }
            } else if fit.1 < self.config.token_y_dust && fit.0 > self.config.token_x_dust {
                // One-sided in x: add a bid-side bin below the active bin.
                if self.s_fpx(dex, dex.active_id - 1) * 10000 < cb * (10000 + mlb) {
                    base + seq![
                        ((dex.active_id - 1) as u32, 0u128, self.s_rem_y(cb, ca, dex) as u128),
                    ]
                } else if self.s_fpx(dex, dex.active_id - 2) * 10000 < cb * (10000 + mlb) {
                    base + seq![
                        ((dex.active_id - 2) as u32, 0u128, self.s_rem_y(cb, ca, dex) as u128),
                    ]
                } else {
                    base
                }
            } else {
                base
            }
        }
    }
}

/// The price-skew component: gain times relative deviation of the pool mid
/// from the reference mid, shifted to one half and clamped into [0, 1], all
/// in ppm.  Deviations are saturated far above the clamp point, so the
/// saturation never changes the outcome.
pub open spec fn px_skew_ppm_spec(rr: int, cc: int, pxs: int) -> int {
    if rr >= cc {
        let delta = ((rr - cc) * 1_000_000) / cc;
        let term = (pxs * imin(delta, delta_sat())) / 1_000_000;
        if term >= 500_000 {
            1_000_000
        } else {
            500_000 + term
        }
    } else {
        let delta = ((cc - rr) * 1_000_000) / cc;
        let term = (pxs * imin(delta, delta_sat())) / 1_000_000;
        if term >= 500_000 {
            0
        } else {
            500_000 - term
        }
    }
}

/// Taker scaling in ppm: aggressiveness times the edge beyond the threshold,
/// plus 0.95.  The edge is saturated far above where the size fraction
/// clamps to one, so the saturation never changes the outcome.
pub open spec fn taker_scaling_spec(tsf: int, num: int, den: int) -> int {
    if den <= 0 {
        (tsf * scale_sat()) / 1_000_000 + 950_000
    } else {
        let ratio = (num * 1_000_000) / den;
        let edge = if ratio >= 1_000_000 {
            imin(ratio - 1_000_000, scale_sat())
        } else {
            0
        };
        (tsf * edge) / 1_000_000 + 950_000
    }
}

// ---------------------------------------------------------------------------
// Verified helpers.
// ---------------------------------------------------------------------------

/// Exact comparison `a * am < b * bm` over 128-bit factors.
pub fn lt_prod(a: u128, am: u128, b: u128, bm: u128) -> (r: bool)
    ensures
        r == (a * am < b * bm),
{
    mul_u128(a, am).lt(mul_u128(b, bm))
}

/// An average floors to the sum of the halves plus the shared remainder.
proof fn lemma_avg2(a: int, b: int)
    requires
        a >= 0,
        b >= 0,
    ensures
        (a + b) / 2 == a / 2 + b / 2 + (a % 2 + b % 2) / 2,
{
    vstd::arithmetic::div_mod::lemma_fundamental_div_mod(a, 2);
    vstd::arithmetic::div_mod::lemma_fundamental_div_mod(b, 2);
    vstd::arithmetic::div_mod::lemma_fundamental_div_mod(a % 2 + b % 2, 2);
    vstd::arithmetic::div_mod::lemma_fundamental_div_mod_converse(
        a + b,
        2,
        a / 2 + b / 2 + (a % 2 + b % 2) / 2,
        (a % 2 + b % 2) % 2,
    );
}

/// Dividing a larger value gives at least the multiple: `a >= k*c` implies
/// `a / c >= k`.
proof fn lemma_div_at_least(a: int, k: int, c: int)
    requires
        c > 0,
        k >= 0,
        a >= k * c,
    ensures
        a / c >= k,
{
    vstd::arithmetic::div_mod::lemma_div_is_ordered(k * c, a, c);
    vstd::arithmetic::div_mod::lemma_div_multiples_vanish(k, c);
    assert(k * c == c * k) by (nonlinear_arith);
}

impl Portfolio {
    /// Sum up the deployed amounts over all positions.
    pub fn deployed_sums(&self) -> (r: (u128, u128))
        requires
            sum_x(self.positions@) < b128(),
            sum_y(self.positions@) < b128(),
        ensures
            r.0 == sum_x(self.positions@),
            r.1 == sum_y(self.positions@),
    {
        let mut sx: u128 = 0;
        let mut sy: u128 = 0;
        let n = self.positions.len();
        let mut i: usize = 0;
        while i < n
            invariant
                i <= n,
                n == self.positions@.len(),
                sum_x(self.positions@) < b128(),
                sum_y(self.positions@) < b128(),
                sx == sum_x(self.positions@.take(i as int)),
                sy == sum_y(self.positions@.take(i as int)),
            decreases n - i,
        {
            proof {
                lemma_sum_bounds(self.positions@, i as int + 1);
                assert(self.positions@.take(i as int + 1).drop_last() =~= self.positions@.take(
                    i as int));
            }
            sx = sx + self.positions[i].x;
            sy = sy + self.positions[i].y;
            i = i + 1;
        }
        proof {
            assert(self.positions@.take(n as int) =~= self.positions@);
        }
        (sx, sy)
    }

    /// The wad-price multiplier as a run-time value.
    pub fn kfactor(&self) -> (k: u128)
        requires
            self.y_decimals <= self.x_decimals,
            self.x_decimals <= self.y_decimals + 20,
        ensures
            k == self.s_kfactor(),
            k >= wad(),
    {
        let dd: u32 = self.x_decimals - self.y_decimals;
        let mut k: u128 = 1_000_000_000_000_000_000;
        let mut i: u32 = 0;
        proof {
            lemma_pow10_le_20(dd as nat);
            lemma_pow10_mono(0, dd as nat);
        }
        while i < dd
            invariant
                i <= dd,
                dd <= 20,
                k == pow10(i as nat) * wad(),
                pow10(dd as nat) <= pow10(20),
                pow10(20) == 100_000_000_000_000_000_000,
                pow10(i as nat) <= pow10(dd as nat),
            decreases dd - i,
        {
            proof {
                lemma_pow10_le_20(i as nat + 1);
                lemma_pow10_mono(i as nat + 1, dd as nat);
                assert(10 * (pow10(i as nat) * wad()) == (10 * pow10(i as nat)) * wad())
                    by (nonlinear_arith);
                assert(pow10(i as nat + 1) * wad() <= pow10(20) * wad()) by (nonlinear_arith)
                    requires
                        pow10(i as nat + 1) <= pow10(20) && wad() > 0,
                ;
            }
            k = k * 10;
            i = i + 1;
        }
        proof {
            lemma_pow10_mono(0, dd as nat);
            assert(pow10(dd as nat) * wad() >= 1 * wad()) by (nonlinear_arith)
                requires
                    pow10(dd as nat) >= 1 && wad() > 0,
            ;
        }
        k
    }
}

/// pow10 grows with its exponent.
pub proof fn lemma_pow10_mono(a: nat, b: nat)
    requires
        a <= b,
    ensures
        1 <= pow10(a) <= pow10(b),
    decreases b,
{
    if b > 0 {
        if a == b {
            lemma_pow10_mono((b - 1) as nat, (b - 1) as nat);
        } else {
            lemma_pow10_mono(a, (b - 1) as nat);
        }
    }
}

/// pow10 stays within 10^20 for exponents up to 20.
pub proof fn lemma_pow10_le_20(e: nat)
    requires
        e <= 20,
    ensures
        pow10(e) <= pow10(20),
        pow10(20) == 100_000_000_000_000_000_000,
{
    lemma_pow10_mono(e, 20);
    reveal_with_fuel(pow10, 21);
    assert(pow10(20) == 100_000_000_000_000_000_000);
}

/// Wad price of a bin from its Q128.128 price.
pub fn fpx_from_px(px: U256, k: u128) -> (r: U256)
    ensures
        r.val() == (px.val() * k) / b128(),
{
    crate::price::shift_down_128(mul_256_u128(px, k))
}

/// The price-skew term from the exact wad mid price of the active bin.
pub fn px_skew_ppm_exec(fpx: U256, cex_mid: u128, pxs: u64) -> (r: u128)
    requires
        cex_mid > 0,
    ensures
        r == px_skew_ppm_spec(fpx.val(), cex_mid as int, pxs as int),
        r <= 1_000_000,
{
    let c = U256::from_u128(cex_mid);
    let sat: u128 = 0x8000_0000_0000_0000;
    if c.le(fpx) {
        let diff = fpx.sub(c);
        let prod = mul_256_u128(diff, 1_000_000);
        let (q, rest) = div_384_by_256(prod, c);
        proof {
            vstd::arithmetic::div_mod::lemma_fundamental_div_mod_converse(
                prod.val(),
                c.val(),
                q.val(),
                rest.val(),
            );
        }
        let dsat: u128 = if q.le384(sat) {
            q.w0
        } else {
            sat
        };
        proof {
            assert((pxs as int) * dsat < 0x8000_0000_0000_0000_0000_0000_0000_0000)
                by (nonlinear_arith)
                requires
                    pxs < 0x1_0000_0000_0000_0000 && dsat <= 0x8000_0000_0000_0000 && pxs >= 0,
            ;
        }
        let term: u128 = ((pxs as u128) * dsat) / 1_000_000;
        if term >= 500_000 {
            1_000_000
        } else {
            500_000 + term
        }
    } else {
        let diff = c.sub(fpx);
        let prod = mul_256_u128(diff, 1_000_000);
        let (q, rest) = div_384_by_256(prod, c);
        proof {
            vstd::arithmetic::div_mod::lemma_fundamental_div_mod_converse(
                prod.val(),
                c.val(),
                q.val(),
                rest.val(),
            );
        }
        let dsat: u128 = if q.le384(sat) {
            q.w0
        } else {
            sat
        };
        proof {
            assert((pxs as int) * dsat < 0x8000_0000_0000_0000_0000_0000_0000_0000)
                by (nonlinear_arith)
                requires
                    pxs < 0x1_0000_0000_0000_0000 && dsat <= 0x8000_0000_0000_0000 && pxs >= 0,
            ;
        }
        let term: u128 = ((pxs as u128) * dsat) / 1_000_000;
        if term >= 500_000 {
            0
        } else {
            500_000 - term
        }
    }
}

/// Taker scaling from the cross-multiplied threshold and pool quote.
pub fn taker_scaling_exec(tsf: u64, num: U256, den: U256) -> (r: u128)
    ensures
        r == taker_scaling_spec(tsf as int, num.val(), den.val()),
        r <= 0x200_0000_0000_0000_0000_0000_0000,
{
    let sat: u128 = 0x100_0000_0000;
    let edge: u128 = if den.is_zero() {
        sat
    } else {
        let prod = mul_256_u128(num, 1_000_000);
        let (q, rest) = div_384_by_256(prod, den);
        proof {
            vstd::arithmetic::div_mod::lemma_fundamental_div_mod_converse(
                prod.val(),
                den.val(),
                q.val(),
                rest.val(),
            );
        }
        if q.le384(1_000_000) {
            0
        } else if q.le384(1_000_000 + sat) {
            q.w0 - 1_000_000
        } else {
            sat
        }
    };
    proof {
        assert((tsf as int) * edge <= (tsf as int) * scale_sat()) by (nonlinear_arith)
            requires
                0 <= edge <= scale_sat() && tsf >= 0,
        ;
        assert((tsf as int) * scale_sat() < 0x100_0000_0000_0000_0000_0000_0000_0000)
            by (nonlinear_arith)
            requires
                tsf < 0x1_0000_0000_0000_0000,
        ;
    }
    ((tsf as u128) * edge) / 1_000_000 + 950_000
}

/// What the decision engine hands back: either a finished decision, or a
/// taker request that still needs the pool's input-amount quote before
/// [`Portfolio::finish_take`] can build the intent.
#[derive(Clone, Debug, PartialEq, Eq)]
pub enum Step {
    Done(Option<crate::executor::Execute>),
    NeedTake { amt_out: u128, swap_for_y: bool },
}

/// An upper bound for quotients: `a < b * c` implies `a / b < c`.
proof fn lemma_div_upper(a: int, b: int, c: int)
    requires
        b > 0,
        c >= 0,
        0 <= a < b * c,
    ensures
        a / b < c,
{
    vstd::arithmetic::div_mod::lemma_fundamental_div_mod(a, b);
    vstd::arithmetic::div_mod::lemma_mod_bound(a, b);
    if a / b >= c {
        assert((a / b) * b >= c * b) by (nonlinear_arith)
            requires
                a / b >= c && b > 0,
        ;
        assert(b * (a / b) == (a / b) * b) by (nonlinear_arith);
        assert(c * b == b * c) by (nonlinear_arith);
    }
}

impl Portfolio {
    /// The timers after the rebalance gate has been passed.
    pub open spec fn s_after_reb(self, now: u64) -> Portfolio {
        if self.s_reb_due(now) {
            Portfolio { last_rebalance: now, ..self }
        } else {
            self
        }
    }

    /// The inputs on which the decision engine is defined: a well-formed
    /// state and snapshot, a live reference quote, a representable active
    /// price, holdings whose y-valuation fits the word size, and — where the
    /// respective branch converts a y value into x units — a conversion that
    /// fits as well.  A portfolio with no value at all is outside the
    /// domain too: every skew is a fraction of the total.  Inputs outside
    /// this set would abort the process, so they are excluded rather than
    /// handled.
    pub open spec fn on_state_ok(self, cb: int, ca: int, dex: DexView) -> bool {
        &&& self.wf()
        &&& dex.wf()
        &&& self.bin_step == dex.bin_step
        &&& cb > 0
        &&& ca > 0
        &&& 0 < self.s_px(dex) < b256()
        &&& self.s_implied_x(dex) < b128()
        &&& 0 < self.s_total(dex) < b128()
        &&& (self.s_in_band(cb, ca, dex) ==> Self::ratio_ok(
            self.s_x_depl(cb, ca, dex),
            self.s_y_depl(cb, ca, dex),
            dex.active_x as int,
            dex.active_y as int,
        ))
        &&& (match find_bin_spec(self.positions@, dex.active_id) {
            Some(b) => b.x <= dex.active_x && b.y <= dex.active_y,
            None => true,
        })
        &&& (self.s_buy_branch(cb, ca, dex) ==> self.s_buy_x_raw(cb, ca, dex) < b128())
        &&& (self.s_reb_buy_tgt(cb, ca, dex) > self.s_implied_x(dex) ==> ((self.s_reb_buy_tgt(
            cb,
            ca,
            dex,
        ) - self.s_implied_x(dex)) * b128()) / self.s_px(dex) < b128())
    }

    /// Run-time check of [`Portfolio::on_state_ok`], for callers outside the
    /// verifier: it re-derives the same quantities and reports whether the
    /// engine may be evaluated on these inputs.
    pub fn check_on_state_ok(&self, cex_bid: u128, cex_ask: u128, dex: &DexView) -> (r: bool)
        ensures
            r == self.on_state_ok(cex_bid as int, cex_ask as int, *dex),
    {
        let ghost p = *self;
        let ghost cb = cex_bid as int;
        let ghost ca = cex_ask as int;
        let ghost dexv = *dex;
        // Structural state invariants.
        if !self.config.check_valid() {
            return false;
        }
        if self.bin_step < 1 {
            return false;
        }
        if self.y_decimals > self.x_decimals {
            return false;
        }
        if self.x_decimals - self.y_decimals > 20 {
            return false;
        }
        let n = self.positions.len();
        let mut i: usize = 0;
        let mut sx: u128 = 0;
        let mut sy: u128 = 0;
        while i < n
            invariant
                i <= n,
                n == self.positions@.len(),
                forall|a: int, b: int|
                    0 <= a < b < i ==> self.positions@[a].id < self.positions@[b].id,
                sx == sum_x(self.positions@.take(i as int)),
                sy == sum_y(self.positions@.take(i as int)),
            decreases n - i,
        {
            let bins = &self.positions;
            if i > 0 && bins[i - 1].id >= bins[i].id {
                proof {
                    assert(!crate::portfolio::positions_sorted(self.positions@)) by {
                        if crate::portfolio::positions_sorted(self.positions@) {
                            assert(self.positions@[i - 1].id < self.positions@[i as int].id);
                        }
                    }
                }
                return false;
            }
            let b = bins[i];
            if b.x > u128::MAX - sx || b.y > u128::MAX - sy {
                proof {
                    lemma_sum_bounds(self.positions@, i as int);
                }
                return false;
            }
            proof {
                assert(self.positions@.take(i + 1).drop_last() =~= self.positions@.take(
                    i as int));
                assert forall|a: int| 0 <= a < i implies #[trigger] self.positions@[a].id
                    < self.positions@[i as int].id by {
                    if a < i - 1 {
                        assert(self.positions@[a].id < self.positions@[i - 1].id);
                    }
                }
            }
            sx = sx + b.x;
            sy = sy + b.y;
            i = i + 1;
        }
        proof {
            assert(self.positions@.take(n as int) =~= self.positions@);
            lemma_sum_nonneg(self.positions@);
        }
        if self.x_free > u128::MAX - sx || self.y_free > u128::MAX - sy {
            return false;
        }
        proof {
            assert(sum_x(p.positions@) + p.x_free < b128());
            assert(sum_y(p.positions@) + p.y_free < b128());
        }
        // Snapshot invariants and a live reference.
        if !(2 <= dex.active_id && dex.active_id < 0x100_0000 && dex.bin_step >= 1) {
            return false;
        }
        if self.bin_step != dex.bin_step {
            return false;
        }
        if cex_bid == 0 || cex_ask == 0 {
            return false;
        }
        // A representable, positive active price.
        let px = match price_from_id(dex.active_id, dex.bin_step) {
            Some(v) => v,
            None => {
                return false;
            },
        };
        if px.is_zero() {
            return false;
        }
        proof {
            crate::wide::lemma_u256_val_bounds(px);
        }
        // The valuations fit the word size.
        let x_amt = sx + self.x_free;
        let y_amt = sy + self.y_free;
        let implied_wide = Self::x_in_terms_of_y(px, x_amt);
        if !implied_wide.fits_u128() {
            return false;
        }
        let implied = implied_wide.to_u128();
        proof {
            assert(implied == p.s_implied_x(dexv));
        }
        if implied > u128::MAX - y_amt {
            return false;
        }
        let total = implied + y_amt;
        if total == 0 {
            return false;
        }
        proof {
            assert(total == p.s_total(dexv));
        }
        // The held active-bin position fits inside the bin's reserves.
        match crate::engine::find_bin(&self.positions, dex.active_id) {
            Some(b) => {
                if b.x > dex.active_x || b.y > dex.active_y {
                    return false;
                }
            },
            None => {},
        }
        // The derived skews and budgets, as the engine computes them.
        let mlb: u128 = self.config.maker_loss_bps as u128;
        let tpb: u128 = self.config.taker_profit_bps as u128;
        let ms: u128 = self.config.max_skew_ppm as u128;
        let in_band = lt_prod(dex.cur_bid, 10000, cex_bid, 10000 + mlb) && lt_prod(
            cex_ask,
            10000 - mlb,
            dex.cur_ask,
            10000,
        );
        let under = lt_prod(dex.cur_ask, 10000, cex_bid, 10000 - tpb);
        let k = self.kfactor();
        let fpx_active = fpx_from_px(px, k);
        let cex_mid = cex_bid / 2 + cex_ask / 2 + (cex_bid % 2 + cex_ask % 2) / 2;
        proof {
            lemma_avg2(cb, ca);
        }
        let px_skew = px_skew_ppm_exec(fpx_active, cex_mid, self.config.px_scaling_factor_ppm);
        let x_skew = mul_div_swap_capped(implied, 1_000_000, total);
        proof {
            assert(px_skew == p.s_px_skew(cb, ca, dexv));
            assert(x_skew == p.s_x_skew(dexv));
        }
        let pxf: u128 = self.config.px_skew_factor_ppm as u128;
        let pf: u128 = self.config.portfolio_skew_factor_ppm as u128;
        proof {
            assert(pxf * px_skew + pf * x_skew <= (pxf + pf) * 1_000_000) by (nonlinear_arith)
                requires
                    0 <= px_skew <= 1_000_000 && 0 <= x_skew <= 1_000_000 && pxf >= 0 && pf >= 0,
            ;
            assert(pxf * px_skew >= 0 && pf * x_skew >= 0) by (nonlinear_arith)
                requires
                    pxf >= 0 && pf >= 0 && px_skew >= 0 && x_skew >= 0,
            ;
            vstd::arithmetic::div_mod::lemma_div_is_ordered(
                pxf * px_skew + pf * x_skew,
                (pxf + pf) * 1_000_000,
                pxf + pf,
            );
            vstd::arithmetic::div_mod::lemma_div_multiples_vanish(1_000_000, pxf + pf);
        }
        let dir = (pxf * px_skew + pf * x_skew) / (pxf + pf);
        proof {
            assert(dir == p.s_dir_skew(cb, ca, dexv));
            assert(dir <= 1_000_000) by {
                assert(((pxf + pf) * 1_000_000) / (pxf + pf) == 1_000_000) by {
                    vstd::arithmetic::div_mod::lemma_div_multiples_vanish(1_000_000, pxf + pf);
                    assert((pxf + pf) * 1_000_000 == 1_000_000 * (pxf + pf))
                        by (nonlinear_arith);
                }
            }
        }
        // The in-band active-bin fit must be well defined.
        if in_band {
            let lim_x = mul_div_capped(total, dir, 1_000_000);
            let m1 = if implied <= lim_x {
                implied
            } else {
                lim_x
            };
            let xdy = mul_div_capped(m1, 1_000_000 - self.config.token_x_reserve_ppm as u128,
                1_000_000);
            let lim_y = mul_div_capped(total, 1_000_000 - dir, 1_000_000);
            let m2 = if y_amt <= lim_y {
                y_amt
            } else {
                lim_y
            };
            let ydep = mul_div_capped(m2, 1_000_000 - self.config.token_y_reserve_ppm as u128,
                1_000_000);
            proof {
                assert(xdy == p.s_x_depl_in_y(cb, ca, dexv));
                assert(ydep == p.s_y_depl(cb, ca, dexv));
                Self::lemma_conv_le(px.val(), x_amt as int, xdy as int);
            }
            let xdep = Self::y_in_terms_of_x(px, xdy).to_u128();
            proof {
                assert(xdep == p.s_x_depl(cb, ca, dexv));
            }
            if dex.active_x > 0 && dex.active_y > 0 {
                let cy = mul_div_u128(xdep, dex.active_y, dex.active_x);
                let cx = mul_div_u128(ydep, dex.active_x, dex.active_y);
                if !cy.fits_u128() || !cx.fits_u128() {
                    return false;
                }
                if !(cx.to_u128() > xdep || cy.to_u128() > ydep) {
                    return false;
                }
            }
        }
        // The taker-buy conversion must fit when that branch is live.
        if !in_band && under && x_skew < ms {
            let num = mul_u128(cex_bid, 10000 - tpb);
            let den = mul_u128(dex.cur_ask, 10000);
            let scaling = taker_scaling_exec(self.config.taker_scaling_factor_ppm, num, den);
            proof {
                assert(scaling == p.s_buy_scaling(cb, dexv));
                assert(ms * scaling < 0x4000_0000_0000_0000_0000_0000_0000_0000)
                    by (nonlinear_arith)
                    requires
                        0 <= ms <= 1_000_000 && 0 <= scaling
                            <= 0x200_0000_0000_0000_0000_0000_0000,
                ;
            }
            let fr1 = (ms * scaling) / 1_000_000;
            let fr2 = if fr1 <= 1_000_000 {
                fr1
            } else {
                1_000_000
            };
            let frac = if fr2 >= x_skew {
                fr2
            } else {
                x_skew
            };
            let target = mul_div_capped(total, frac, 1_000_000);
            proof {
                assert(target == p.s_buy_target(cb, ca, dexv));
            }
            if target > implied {
                if !Self::y_in_terms_of_x(px, target - implied).fits_u128() {
                    return false;
                }
            }
        }
        // The rebalance-buy conversion must fit when its target overshoots.
        proof {
            lemma_div_upper((1_000_000 - dir) * 1_000_000, ms as int, 2_000_001);
        }
        let reb_scaling = ((1_000_000 - dir) * 1_000_000) / ms;
        proof {
            assert((1_000_000 - ms) * reb_scaling <= 1_000_000 * 2_000_000)
                by (nonlinear_arith)
                requires
                    ms <= 1_000_000 && 0 <= reb_scaling <= 2_000_000,
            ;
        }
        let reb_fr1 = ((1_000_000 - ms) * reb_scaling) / 1_000_000;
        let reb_fr = if reb_fr1 <= 500_000 {
            reb_fr1
        } else {
            500_000
        };
        let reb_tgt = mul_div_capped(total, reb_fr, 1_000_000);
        proof {
            assert(reb_tgt == p.s_reb_buy_tgt(cb, ca, dexv));
        }
        if reb_tgt > implied {
            if !Self::y_in_terms_of_x(px, reb_tgt - implied).fits_u128() {
                return false;
            }
        }
        true
    }

    /// Wad price of a neighbour bin clears the pull-side ask threshold.
    /// A price too large to represent clears it trivially.
    fn fpx_gt_min_ask(&self, dex: &DexView, id: u32, k: u128, cex_ask: u128) -> (r: bool)
        requires
            self.bin_step == dex.bin_step,
            k == self.s_kfactor(),
            k >= wad(),
            self.config.maker_loss_bps < 10000,
        ensures
            r == (self.s_fpx(*dex, id as int) * 10000 > cex_ask * (10000
                - self.config.maker_loss_bps)),
    {
        let rhs = U384::from_u256(mul_u128(cex_ask, 10000 - self.config.maker_loss_bps as u128));
        match price_from_id(id, dex.bin_step) {
            Some(pp) => {
                let f = fpx_from_px(pp, k);
                rhs.lt(mul_256_u128(f, 10000))
            },
            None => {
                proof {
                    lemma_fpx_overflow_huge(id as int, dex.bin_step as int, k as int);
                    assert(cex_ask * (10000 - self.config.maker_loss_bps) < b128() * 10000)
                        by (nonlinear_arith)
                        requires
                            0 <= cex_ask < b128() && 0 <= 10000 - self.config.maker_loss_bps
                                <= 10000,
                    ;
                    assert(self.s_fpx(*dex, id as int) * 10000 >= (b128() * wad()) * 10000)
                        by (nonlinear_arith)
                        requires
                            self.s_fpx(*dex, id as int) >= b128() * wad(),
                    ;
                    assert((b128() * wad()) * 10000 >= b128() * 10000) by (nonlinear_arith);
                }
                true
            },
        }
    }

    /// Wad price of a neighbour bin sits under the pull-side bid threshold.
    /// A price too large to represent never does.
    fn fpx_lt_max_bid(&self, dex: &DexView, id: u32, k: u128, cex_bid: u128) -> (r: bool)
        requires
            self.bin_step == dex.bin_step,
            k == self.s_kfactor(),
            k >= wad(),
            self.config.maker_loss_bps < 10000,
        ensures
            r == (self.s_fpx(*dex, id as int) * 10000 < cex_bid * (10000
                + self.config.maker_loss_bps)),
    {
        let rhs = U384::from_u256(mul_u128(cex_bid, 10000 + self.config.maker_loss_bps as u128));
        match price_from_id(id, dex.bin_step) {
            Some(pp) => {
                let f = fpx_from_px(pp, k);
                mul_256_u128(f, 10000).lt(rhs)
            },
            None => {
                proof {
                    lemma_fpx_overflow_huge(id as int, dex.bin_step as int, k as int);
                    assert(cex_bid * (10000 + self.config.maker_loss_bps) < b128() * 20000)
                        by (nonlinear_arith)
                        requires
                            0 <= cex_bid < b128() && 0 <= 10000 + self.config.maker_loss_bps
                                <= 20000,
                    ;
                    assert(self.s_fpx(*dex, id as int) * 10000 >= (b128() * wad()) * 10000)
                        by (nonlinear_arith)
                        requires
                            self.s_fpx(*dex, id as int) >= b128() * wad(),
                    ;
                    assert((b128() * wad()) * 10000 >= b128() * 20000) by (nonlinear_arith);
                }
                false
            },
        }
    }

    /// Evaluate the decision state machine on the latest reference quote and
    /// ladder snapshot.
    ///
    /// The second component of the result is the active bin id at
    /// evaluation time, against which delta ticks resolve.
    pub fn on_state(&mut self, cex_bid: u128, cex_ask: u128, dex: &DexView, now: u64) -> (r: (
        Step,
        u32,
    ))
        requires
            old(self).on_state_ok(cex_bid as int, cex_ask as int, *dex),
        ensures
            old(self).config.pause ==> r == (Step::Done(None::<crate::executor::Execute>), 0u32)
                && *final(self) == *old(self),
            !old(self).config.pause ==> ({
                let p = *old(self);
                let cb = cex_bid as int;
                let ca = cex_ask as int;
                let d = *dex;
                &&& r.1 == dex.active_id
                &&& (p.s_buy_fires(cb, ca, d) ==> r.0 == (Step::NeedTake {
                    amt_out: p.s_buy_x_out(cb, ca, d) as u128,
                    swap_for_y: false,
                }) && *final(self) == p)
                &&& (p.s_sell_fires(cb, ca, d) ==> r.0 == (Step::NeedTake {
                    amt_out: p.s_sell_y_out(cb, ca, d) as u128,
                    swap_for_y: true,
                }) && *final(self) == p)
                &&& (!p.s_buy_fires(cb, ca, d) && !p.s_sell_fires(cb, ca, d) && p.s_reb_sell_fires(
                    cb,
                    ca,
                    d,
                    now,
                ) ==> r.0 == (Step::NeedTake {
                    amt_out: p.s_reb_sell_y_out(cb, ca, d) as u128,
                    swap_for_y: true,
                }) && *final(self) == p.s_after_reb(now))
                &&& (!p.s_buy_fires(cb, ca, d) && !p.s_sell_fires(cb, ca, d)
                    && p.s_reb_buy_fires(cb, ca, d, now) ==> r.0 == (Step::NeedTake {
                    amt_out: p.s_reb_buy_x_out(cb, ca, d) as u128,
                    swap_for_y: false,
                }) && *final(self) == p.s_after_reb(now))
                &&& (!p.s_any_take_fires(cb, ca, d, now) ==> ({
                    let w = p.s_wanted(cb, ca, d);
                    let p2 = p.s_after_reb(now);
                    let adds = crate::engine::wanted_adds(p.positions@, w, p.config);
                    let cans = crate::engine::final_cancels(p.positions@, w, p.config);
                    &&& (adds.len() > 0 && cans.len() > 0 ==> (r.0 matches Step::Done(Some(
                        crate::executor::Execute::Move { from, to },
                    )) && from@ == crate::engine::cancels_as_orders(cans) && to@
                        == crate::engine::adds_as_orders(adds) && *final(self) == p2))
                    &&& (adds.len() > 0 && cans.len() == 0 ==> (r.0 matches Step::Done(Some(
                        crate::executor::Execute::Make(v),
                    )) && v@ == crate::engine::adds_as_orders(adds) && *final(self) == p2))
                    &&& (adds.len() == 0 && cans.len() > 0 ==> (r.0 matches Step::Done(Some(
                        crate::executor::Execute::Cancel(v),
                    )) && v@ == crate::engine::cancels_as_orders(cans) && *final(self) == p2))
                    &&& (adds.len() == 0 && cans.len() == 0 ==> {
                        if p2.fee_claim_due(now) {
                            r.0 == Step::Done(Some(crate::executor::Execute::Claim))
                                && *final(self) == (Portfolio { last_fee_claim: now, ..p2 })
                        } else if p2.gas_check_due(now) {
                            r.0 == Step::Done(Some(crate::executor::Execute::CheckGas))
                                && *final(self) == (Portfolio { last_gas_check: now, ..p2 })
                        } else {
                            r.0 == Step::Done(None::<crate::executor::Execute>) && *final(self)
                                == p2
                        }
                    })
                }))
                &&& (p.config.reduce_only ==> !(r.0 matches Step::Done(Some(
                    crate::executor::Execute::Make(..),
                ))) && !(r.0 matches Step::Done(Some(crate::executor::Execute::Move { .. }))))
            }),
    {
        let ghost p = *old(self);
        let ghost cb = cex_bid as int;
        let ghost ca = cex_ask as int;
        let ghost dexv = *dex;
        if self.config.pause {
            return (Step::Done(None), 0);
        }
        let mlb: u128 = self.config.maker_loss_bps as u128;
        let tpb: u128 = self.config.taker_profit_bps as u128;
        let ms: u128 = self.config.max_skew_ppm as u128;
        let dust_x = self.config.token_x_dust;
        let dust_y = self.config.token_y_dust;
        // Exact band flags by cross-multiplication.
        let in_band = lt_prod(dex.cur_bid, 10000, cex_bid, 10000 + mlb) && lt_prod(
            cex_ask,
            10000 - mlb,
            dex.cur_ask,
            10000,
        );
        let buffered = lt_prod(dex.cur_bid, 100_000_000, cex_bid, (10000 + mlb) * 9999)
            && lt_prod(cex_ask, (10000 - mlb) * 10001, dex.cur_ask, 100_000_000);
        let under = lt_prod(dex.cur_ask, 10000, cex_bid, 10000 - tpb);
        let over = lt_prod(cex_ask, 10000 + tpb, dex.cur_bid, 10000);
        proof {
            assert(in_band == p.s_in_band(cb, ca, dexv));
            assert(buffered == p.s_in_buffered_band(cb, ca, dexv));
            assert(under == p.s_underpriced(cb, dexv));
            assert(over == p.s_overpriced(ca, dexv));
        }
        // The active-bin price and the derived valuations.
        let px = match price_from_id(dex.active_id, dex.bin_step) {
            Some(v) => v,
            None => {
                proof {
                    assert(false);
                }
                U256 { hi: 0, lo: 0 }
            },
        };
        proof {
            crate::wide::lemma_u256_val_bounds(px);
        }
        let (x_dep, y_dep) = self.deployed_sums();
        proof {
            lemma_sum_nonneg(self.positions@);
        }
        let x_amt = x_dep + self.x_free;
        let y_amt = y_dep + self.y_free;
        let implied = Self::x_in_terms_of_y(px, x_amt).to_u128();
        let total = implied + y_amt;
        proof {
            assert(implied == p.s_implied_x(dexv));
            assert(total == p.s_total(dexv));
        }
        // Skews.
        let k = self.kfactor();
        let fpx_active = fpx_from_px(px, k);
        let cex_mid = cex_bid / 2 + cex_ask / 2 + (cex_bid % 2 + cex_ask % 2) / 2;
        proof {
            lemma_avg2(cb, ca);
            assert(cex_mid == p.s_cex_mid(cb, ca));
        }
        let px_skew = px_skew_ppm_exec(fpx_active, cex_mid, self.config.px_scaling_factor_ppm);
        let x_skew = mul_div_swap_capped(implied, 1_000_000, total);
        proof {
            assert(px_skew == p.s_px_skew(cb, ca, dexv));
            assert(x_skew == p.s_x_skew(dexv));
        }
        let pxf: u128 = self.config.px_skew_factor_ppm as u128;
        let pf: u128 = self.config.portfolio_skew_factor_ppm as u128;
        proof {
            assert(pxf * px_skew + pf * x_skew <= (pxf + pf) * 1_000_000) by (nonlinear_arith)
                requires
                    0 <= px_skew <= 1_000_000 && 0 <= x_skew <= 1_000_000 && pxf >= 0 && pf >= 0,
            ;
            assert(pxf * px_skew >= 0 && pf * x_skew >= 0) by (nonlinear_arith)
                requires
                    pxf >= 0 && pf >= 0 && px_skew >= 0 && x_skew >= 0,
            ;
            vstd::arithmetic::div_mod::lemma_div_is_ordered(
                pxf * px_skew + pf * x_skew,
                (pxf + pf) * 1_000_000,
                pxf + pf,
            );
            vstd::arithmetic::div_mod::lemma_div_multiples_vanish(1_000_000, pxf + pf);
            assert((pxf + pf) * 1_000_000 == (pxf + pf as int) * 1_000_000);
        }
        let dir = (pxf * px_skew + pf * x_skew) / (pxf + pf);
        proof {
            assert(dir == p.s_dir_skew(cb, ca, dexv));
            assert(dir <= 1_000_000) by {
                assert(((pxf + pf) * 1_000_000) / (pxf + pf) == 1_000_000) by {
                    vstd::arithmetic::div_mod::lemma_div_multiples_vanish(1_000_000, pxf + pf);
                    assert((pxf + pf) * 1_000_000 == 1_000_000 * (pxf + pf))
                        by (nonlinear_arith);
                }
            }
        }
        // Budgets.
        let lim_x = mul_div_capped(total, dir, 1_000_000);
        let m1 = if implied <= lim_x {
            implied
        } else {
            lim_x
        };
        let xdy = mul_div_capped(m1, 1_000_000 - self.config.token_x_reserve_ppm as u128,
            1_000_000);
        let lim_y = mul_div_capped(total, 1_000_000 - dir, 1_000_000);
        let m2 = if y_amt <= lim_y {
            y_amt
        } else {
            lim_y
        };
        let ydep = mul_div_capped(m2, 1_000_000 - self.config.token_y_reserve_ppm as u128,
            1_000_000);
        proof {
            assert(xdy == p.s_x_depl_in_y(cb, ca, dexv));
            assert(ydep == p.s_y_depl(cb, ca, dexv));
            Self::lemma_conv_le(px.val(), x_amt as int, xdy as int);
        }
        let xdep = Self::y_in_terms_of_x(px, xdy).to_u128();
        proof {
            assert(xdep == p.s_x_depl(cb, ca, dexv));
        }
        let my_active = crate::engine::find_bin(&self.positions, dex.active_id);
        let cap_x = match my_active {
            Some(b) => dex.active_x - b.x,
            None => dex.active_x,
        };
        let cap_y = match my_active {
            Some(b) => dex.active_y - b.y,
            None => dex.active_y,
        };
        let mut wanted: Vec<Wanted> = Vec::new();
        let mut rem_x = xdep;
        let mut rem_y = ydep;
        if in_band {
            let fit = Self::get_ratio(xdep, ydep, dex.active_x, dex.active_y);
            proof {
                if dex.active_x > 0 && dex.active_y > 0 {
                    Self::lemma_get_ratio_saturates(xdep as int, ydep as int,
                        dex.active_x as int, dex.active_y as int);
                }
            }
            let quote = match my_active {
                Some(_) => true,
                None => buffered,
            };
            if quote {
                wanted.push((dex.active_id, fit.0, fit.1));
                rem_x = xdep - fit.0;
                rem_y = ydep - fit.1;
            }
        } else if under && x_skew < ms {
            // The pool sells x too cheaply: buy it.
            let num = mul_u128(cex_bid, 10000 - tpb);
            let den = mul_u128(dex.cur_ask, 10000);
            let scaling = taker_scaling_exec(self.config.taker_scaling_factor_ppm, num, den);
            proof {
                assert(scaling == p.s_buy_scaling(cb, dexv));
                assert(ms * scaling < 0x4000_0000_0000_0000_0000_0000_0000_0000)
                    by (nonlinear_arith)
                    requires
                        0 <= ms <= 1_000_000 && 0 <= scaling
                            <= 0x200_0000_0000_0000_0000_0000_0000,
                ;
            }
            let fr1 = (ms * scaling) / 1_000_000;
            let fr2 = if fr1 <= 1_000_000 {
                fr1
            } else {
                1_000_000
            };
            let frac = if fr2 >= x_skew {
                fr2
            } else {
                x_skew
            };
            let target = mul_div_capped(total, frac, 1_000_000);
            proof {
                assert(target == p.s_buy_target(cb, ca, dexv));
            }
            let x_raw = if target > implied {
                Self::y_in_terms_of_x(px, target - implied).to_u128()
            } else {
                0
            };
            let x_out = if x_raw <= cap_x {
                x_raw
            } else {
                cap_x
            };
            proof {
                assert(x_out == p.s_buy_x_out(cb, ca, dexv));
            }
            if x_out > dust_x {
                proof {
                    assert(p.s_buy_fires(cb, ca, dexv));
                }
                return (Step::NeedTake { amt_out: x_out, swap_for_y: false }, dex.active_id);
            }
        } else if over && x_skew > 1_000_000 - ms {
            // The pool bids too much for x: sell it.
            let num = mul_u128(dex.cur_bid, 10000);
            let den = mul_u128(cex_ask, 10000 + tpb);
            let scaling = taker_scaling_exec(self.config.taker_scaling_factor_ppm, num, den);
            proof {
                assert(scaling == p.s_sell_scaling(ca, dexv));
                assert(ms * scaling < 0x4000_0000_0000_0000_0000_0000_0000_0000)
                    by (nonlinear_arith)
                    requires
                        0 <= ms <= 1_000_000 && 0 <= scaling
                            <= 0x200_0000_0000_0000_0000_0000_0000,
                ;
            }
            let fr1 = (ms * scaling) / 1_000_000;
            let fr2 = if fr1 <= 1_000_000 {
                fr1
            } else {
                1_000_000
            };
            let inv_skew = 1_000_000 - x_skew;
            let frac = if fr2 >= inv_skew {
                fr2
            } else {
                inv_skew
            };
            let target = mul_div_capped(total, frac, 1_000_000);
            proof {
                assert(target == p.s_sell_target(cb, ca, dexv));
            }
            let y_raw = if target > y_amt {
                target - y_amt
            } else {
                0
            };
            let y_out = if y_raw <= cap_y {
                y_raw
            } else {
                cap_y
            };
            proof {
                assert(y_out == p.s_sell_y_out(cb, ca, dexv));
            }
            if y_out > dust_y {
                proof {
                    assert(p.s_sell_fires(cb, ca, dexv));
                }
                return (Step::NeedTake { amt_out: y_out, swap_for_y: true }, dex.active_id);
            }
        }
        // Periodic inventory rebalance.
        let reb_due = now > self.last_rebalance && (now - self.last_rebalance) as u128 > 60u128
            * (self.config.rebalance_interval as u128);
        proof {
            assert(reb_due == p.s_reb_due(now));
        }
        if reb_due {
            self.last_rebalance = now;
            if dir > ms {
                proof {
                    lemma_div_upper(dir * 1_000_000, ms as int, 2_000_001);
                }
                let scaling = (dir * 1_000_000) / ms;
                proof {
                    assert((1_000_000 - ms) * scaling <= 1_000_000 * 2_000_000)
                        by (nonlinear_arith)
                        requires
                            ms <= 1_000_000 && 0 <= scaling <= 2_000_000,
                    ;
                }
                let fr1 = ((1_000_000 - ms) * scaling) / 1_000_000;
                let fr = if fr1 <= 500_000 {
                    fr1
                } else {
                    500_000
                };
                let tgt = mul_div_capped(total, fr, 1_000_000);
                let y_raw = if tgt > y_amt {
                    tgt - y_amt
                } else {
                    0
                };
                let y_out = if y_raw <= cap_y {
                    y_raw
                } else {
                    cap_y
                };
                proof {
                    assert(y_out == p.s_reb_sell_y_out(cb, ca, dexv));
                }
                if y_out > dust_y {
                    proof {
                        assert(p.s_reb_sell_fires(cb, ca, dexv, now));
                    }
                    return (Step::NeedTake { amt_out: y_out, swap_for_y: true }, dex.active_id);
                }
            } else if dir < 1_000_000 - ms {
                proof {
                    lemma_div_upper((1_000_000 - dir) * 1_000_000, ms as int, 2_000_001);
                }
                let scaling = ((1_000_000 - dir) * 1_000_000) / ms;
                proof {
                    assert((1_000_000 - ms) * scaling <= 1_000_000 * 2_000_000)
                        by (nonlinear_arith)
                        requires
                            ms <= 1_000_000 && 0 <= scaling <= 2_000_000,
                    ;
                }
                let fr1 = ((1_000_000 - ms) * scaling) / 1_000_000;
                let fr = if fr1 <= 500_000 {
                    fr1
                } else {
                    500_000
                };
                let tgt = mul_div_capped(total, fr, 1_000_000);
                proof {
                    assert(tgt == p.s_reb_buy_tgt(cb, ca, dexv));
                }
                let x_raw = if tgt > implied {
                    Self::y_in_terms_of_x(px, tgt - implied).to_u128()
                } else {
                    0
                };
                let x_out = if x_raw <= cap_x {
                    x_raw
                } else {
                    cap_x
                };
                proof {
                    assert(x_out == p.s_reb_buy_x_out(cb, ca, dexv));
                }
                if x_out > dust_x {
                    proof {
                        assert(p.s_reb_buy_fires(cb, ca, dexv, now));
                    }
                    return (Step::NeedTake { amt_out: x_out, swap_for_y: false },
                        dex.active_id);
                }
            }
        }
        // When the active-bin fit is essentially one-sided, also quote the
        // first neighbour bin whose price still clears the band.
        if wanted.len() > 0 {
            let w0 = wanted[0];
            if w0.1 < dust_x && w0.2 > dust_y {
                if self.fpx_gt_min_ask(dex, dex.active_id + 1, k, cex_ask) {
                    wanted.push((dex.active_id + 1, rem_x, 0));
                } else if self.fpx_gt_min_ask(dex, dex.active_id + 2, k, cex_ask) {
                    wanted.push((dex.active_id + 2, rem_x, 0));
                }
            } else if w0.2 < dust_y && w0.1 > dust_x {
                if self.fpx_lt_max_bid(dex, dex.active_id - 1, k, cex_bid) {
                    wanted.push((dex.active_id - 1, 0, rem_y));
                } else if self.fpx_lt_max_bid(dex, dex.active_id - 2, k, cex_bid) {
                    wanted.push((dex.active_id - 2, 0, rem_y));
                }
            }
        }
        if self.config.reduce_only {
            wanted = Vec::new();
        }
        proof {
            assert(wanted@ =~= p.s_wanted(cb, ca, dexv));
            assert(!p.s_any_take_fires(cb, ca, dexv, now));
        }
        let d = self.get_diff(&wanted, now);
        (Step::Done(d), dex.active_id)
    }

    /// Build the taker intent once the pool has quoted the required input
    /// amount.  The accepted output is discounted by twice the taker edge as
    /// slippage protection; held positions are cancelled in the same call.
    pub fn finish_take(&self, amt_out: u128, swap_for_y: bool, amt_in: u128) -> (r:
        crate::executor::Execute)
        requires
            self.config.taker_profit_bps <= 5000,
        ensures
            ({
                let acc = (amt_out - (amt_out * (2 * self.config.taker_profit_bps)) / 10000)
                    as u128;
                if self.positions@.len() == 0 {
                    r == crate::executor::Execute::Take {
                        amt_in,
                        amt_out: acc,
                        swap_for_y,
                    }
                } else {
                    r matches crate::executor::Execute::CancelNTake {
                        amt_in: ai,
                        amt_out: ao,
                        swap_for_y: s,
                        orders,
                    } && ai == amt_in && ao == acc && s == swap_for_y && orders@
                        == positions_as_orders(self.positions@)
                }
            }),
    {
        proof {
            lemma_cut_within(amt_out as int, 2 * self.config.taker_profit_bps as int);
        }
        let cut = mul_div_u128(amt_out, 2 * self.config.taker_profit_bps as u128,
            10000).to_u128();
        let acc = amt_out - cut;
        if self.positions.len() == 0 {
            crate::executor::Execute::Take { amt_in, amt_out: acc, swap_for_y }
        } else {
            let mut orders: Vec<(crate::executor::Tick, u128)> = Vec::new();
            let n = self.positions.len();
            let mut i: usize = 0;
            while i < n
                invariant
                    i <= n,
                    n == self.positions@.len(),
                    orders@ =~= positions_as_orders(self.positions@.take(i as int)),
                decreases n - i,
            {
                let b = self.positions[i];
                orders.push((crate::executor::Tick::Exact(b.id), b.tokens));
                proof {
                    assert(self.positions@.take(i as int + 1).drop_last()
                        =~= self.positions@.take(i as int));
                    assert(positions_as_orders(self.positions@.take(i as int + 1))
                        =~= positions_as_orders(self.positions@.take(i as int)).push((
                        crate::executor::Tick::Exact(b.id), b.tokens)));
                }
                i = i + 1;
            }
            proof {
                assert(self.positions@.take(n as int) =~= self.positions@);
            }
            crate::executor::Execute::CancelNTake {
                amt_in,
                amt_out: acc,
                swap_for_y,
                orders,
            }
        }
    }
}

/// The slippage cut never exceeds the amount itself.
proof fn lemma_cut_within(a: int, t2: int)
    requires
        a >= 0,
        0 <= t2 <= 10000,
    ensures
        0 <= (a * t2) / 10000 <= a,
{
    assert(a * t2 <= a * 10000) by (nonlinear_arith)
        requires
            a >= 0 && t2 <= 10000,
    ;
    assert(a * t2 >= 0) by (nonlinear_arith)
        requires
            a >= 0 && t2 >= 0,
    ;
    vstd::arithmetic::div_mod::lemma_div_is_ordered(0, a * t2, 10000);
    vstd::arithmetic::div_mod::lemma_div_is_ordered(a * t2, a * 10000, 10000);
    vstd::arithmetic::div_mod::lemma_div_by_multiple(a, 10000);
}

/// Held positions as cancellation orders inside a taker intent.
pub open spec fn positions_as_orders(s: Seq<Bin>) -> Seq<(crate::executor::Tick, u128)> {
    s.map(|i: int, b: Bin| (crate::executor::Tick::Exact(b.id), b.tokens))
}

/// A wad price beyond 256 bits is astronomically larger than any threshold.
proof fn lemma_fpx_overflow_huge(id: int, s: int, kf: int)
    requires
        price_q128_spec(id, s) >= b256(),
        kf >= wad(),
    ensures
        (price_q128_spec(id, s) * kf) / b128() >= b128() * kf,
        (price_q128_spec(id, s) * kf) / b128() >= b128() * wad(),
{
    let pq = price_q128_spec(id, s);
    assert(pq * kf >= b256() * kf) by (nonlinear_arith)
        requires
            pq >= b256() && kf > 0,
    ;
    assert(b256() * kf == b128() * (b128() * kf)) by (nonlinear_arith)
        requires
            b256() == b128() * b128(),
    ;
    vstd::arithmetic::div_mod::lemma_div_is_ordered(b256() * kf, pq * kf, b128());
    vstd::arithmetic::div_mod::lemma_div_multiples_vanish(b128() * kf, b128());
    assert(b128() * kf >= b128() * wad()) by (nonlinear_arith)
        requires
            kf >= wad(),
    ;
}

} // verus!
