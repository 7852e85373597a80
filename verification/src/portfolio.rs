//! Portfolio state and the exact fixed-point helpers of the decision engine.
//!
//! Amounts are atomic token units (128-bit); prices between the two tokens
//! are Q128.128 fixed-point numbers.  Fractional configuration values are
//! parts per million.

use vstd::prelude::*;
use crate::wide::{U256, U384, b128, b256, mul_u128, mul_256_u128, mul_div_u128, div_384_by_256};
use crate::price::shift_down_128;

verus! {

/// One million: the denominator of all parts-per-million fractions.
pub open spec fn ppm() -> int {
    1_000_000int
}

/// An owned position in one bin: the pro-rata share of its reserves and the
/// liquidity tokens that back it.
#[derive(Clone, Copy, Debug, PartialEq, Eq)]
pub struct Bin {
    pub id: u32,
    pub x: u128,
    pub y: u128,
    pub tokens: u128,
}

/// Quoter configuration.  Fractions are parts per million, edges are basis
/// points, amounts are atomic units.
#[derive(Clone, Copy, Debug, PartialEq, Eq)]
pub struct PortfolioConfig {
    /// Minimum balances kept for delta neutrality; informational.
    pub token_x_delta: Option<u128>,
    pub token_y_delta: Option<u128>,
    /// Amounts below these are not worth a transaction.
    pub token_x_dust: u128,
    pub token_y_dust: u128,
    /// Fraction of each balance kept off-book, in ppm; below one.
    pub token_x_reserve_ppm: u32,
    pub token_y_reserve_ppm: u32,
    /// Minimum edge taken against the pool, in basis points.
    pub taker_profit_bps: u32,
    /// Tolerated loss before quoted liquidity is pulled, in basis points.
    pub maker_loss_bps: u32,
    /// Rolling five-minute cap on make/move transactions.
    pub tx_limit_5min: usize,
    /// Largest one-sided inventory fraction, in ppm; above one half.
    pub max_skew_ppm: u32,
    /// Taker sizing aggressiveness, in ppm; above one half.
    pub taker_scaling_factor_ppm: u64,
    /// Only cancel or close positions.
    pub reduce_only: bool,
    /// Do nothing at all.
    pub pause: bool,
    /// Native gas floor before topping up.
    pub min_gas: u128,
    /// Weights of the two directional-skew components, and the gain on the
    /// price-skew term, in ppm.
    pub px_skew_factor_ppm: u64,
    pub portfolio_skew_factor_ppm: u64,
    pub px_scaling_factor_ppm: u64,
    /// Minutes between forced inventory rebalances.
    pub rebalance_interval: u64,
    /// Percent multiplier on the gas price of taker transactions.
    pub take_gas_price_scaling: u64,
    /// Flat gas limit per transaction.
    pub gas_constant: u64,
}

impl PortfolioConfig {
    /// The configuration invariants.
    pub open spec fn valid(self) -> bool {
        &&& self.token_x_reserve_ppm < 1_000_000
        &&& self.token_y_reserve_ppm < 1_000_000
        &&& self.max_skew_ppm > 500_000
        &&& self.max_skew_ppm <= 1_000_000
        &&& self.taker_scaling_factor_ppm > 500_000
        &&& self.taker_profit_bps < 10000
        &&& self.maker_loss_bps < 10000
        &&& self.tx_limit_5min > 0
        &&& self.px_skew_factor_ppm + self.portfolio_skew_factor_ppm > 0
    }

    /// Run-time check of the same invariants.
    pub fn check_valid(&self) -> (r: bool)
        ensures
            r == self.valid(),
    {
        self.token_x_reserve_ppm < 1_000_000 && self.token_y_reserve_ppm < 1_000_000
            && self.max_skew_ppm > 500_000 && self.max_skew_ppm <= 1_000_000
            && self.taker_scaling_factor_ppm > 500_000 && self.taker_profit_bps < 10000
            && self.maker_loss_bps < 10000 && self.tx_limit_5min > 0 && (
        self.px_skew_factor_ppm > 0 || self.portfolio_skew_factor_ppm > 0)
    }
}

/// What the decision engine reads from the latest bin-ladder snapshot.
#[derive(Clone, Copy, Debug, PartialEq, Eq)]
pub struct DexView {
    /// The active bin id; a 24-bit value away from the ladder edges.
    pub active_id: u32,
    /// Total reserves of the active bin, atomic units.
    pub active_x: u128,
    pub active_y: u128,
    /// Executable top of book on the pool, in token y per whole token x,
    /// scaled by 10^18.
    pub cur_bid: u128,
    pub cur_ask: u128,
    /// Fee parameter: geometric step between bins, basis points.
    pub bin_step: u16,
    /// Chain height of this snapshot.
    pub last_block: u64,
}

impl DexView {
    pub open spec fn wf(self) -> bool {
        &&& 2 <= self.active_id
        &&& self.active_id < 0x100_0000
        &&& self.bin_step >= 1
    }
}

impl Bin {
    /// An owned position from a chain read: the pro-rata share of the bin's
    /// reserves backed by the held liquidity tokens.
    pub fn from_chain(
        id: u32,
        reserve_x: u128,
        reserve_y: u128,
        tokens: u128,
        supply: u128,
    ) -> (r: Bin)
        requires
            supply > 0,
            tokens <= supply,
        ensures
            r.id == id,
            r.tokens == tokens,
            r.x == (reserve_x * tokens) / (supply as int),
            r.y == (reserve_y * tokens) / (supply as int),
            r.x <= reserve_x,
            r.y <= reserve_y,
    {
        proof {
            lemma_share_within(reserve_x as int, tokens as int, supply as int);
            lemma_share_within(reserve_y as int, tokens as int, supply as int);
        }
        Bin {
            id,
            x: mul_div_u128(reserve_x, tokens, supply).to_u128(),
            y: mul_div_u128(reserve_y, tokens, supply).to_u128(),
            tokens,
        }
    }
}

/// A pro-rata share never exceeds the reserve it is drawn from.
proof fn lemma_share_within(reserve: int, tokens: int, supply: int)
    requires
        reserve >= 0,
        0 <= tokens <= supply,
        supply > 0,
    ensures
        0 <= (reserve * tokens) / supply <= reserve,
{
    assert(reserve * tokens <= reserve * supply) by (nonlinear_arith)
        requires
            reserve >= 0 && tokens <= supply,
    ;
    assert(reserve * tokens >= 0) by (nonlinear_arith)
        requires
            reserve >= 0 && tokens >= 0,
    ;
    vstd::arithmetic::div_mod::lemma_div_is_ordered(0, reserve * tokens, supply);
    vstd::arithmetic::div_mod::lemma_div_is_ordered(reserve * tokens, reserve * supply, supply);
    vstd::arithmetic::div_mod::lemma_div_multiples_vanish(reserve, supply);
    assert(reserve * supply == supply * reserve) by (nonlinear_arith);
}

/// The bin ids requeried after a confirmed execution: a symmetric window
/// of ten bins on each side of the active bin.
pub fn refresh_window_ids(active_id: u32) -> (r: Vec<u32>)
    requires
        active_id >= 10,
        active_id + 10 <= u32::MAX,
    ensures
        r@.len() == 20,
        forall|i: int| 0 <= i < 20 ==> r@[i] == active_id - 10 + i,
{
    let mut ids: Vec<u32> = Vec::new();
    let mut k: u32 = 0;
    while k < 20
        invariant
            k <= 20,
            active_id >= 10,
            active_id + 10 <= u32::MAX,
            ids@.len() == k,
            forall|i: int| 0 <= i < k ==> ids@[i] == active_id - 10 + i,
        decreases 20 - k,
    {
        ids.push(active_id - 10 + k);
        k = k + 1;
    }
    ids
}

/// Sum of the x amounts of a position list.
pub open spec fn sum_x(s: Seq<Bin>) -> int
    decreases s.len(),
{
    if s.len() == 0 {
        0
    } else {
        sum_x(s.drop_last()) + s.last().x
    }
}

/// Sum of the y amounts of a position list.
pub open spec fn sum_y(s: Seq<Bin>) -> int
    decreases s.len(),
{
    if s.len() == 0 {
        0
    } else {
        sum_y(s.drop_last()) + s.last().y
    }
}

/// Prefix sums stay within the whole and sums are nonnegative; a single
/// element never exceeds what the whole list sums to.
pub proof fn lemma_sum_bounds(s: Seq<Bin>, i: int)
    requires
        0 <= i <= s.len(),
    ensures
        0 <= sum_x(s.take(i)) <= sum_x(s),
        0 <= sum_y(s.take(i)) <= sum_y(s),
        i < s.len() ==> sum_x(s.take(i)) + s[i].x <= sum_x(s),
        i < s.len() ==> sum_y(s.take(i)) + s[i].y <= sum_y(s),
    decreases s.len() - i,
{
    if i == s.len() {
        assert(s.take(i) =~= s);
        lemma_sum_nonneg(s);
    } else {
        lemma_sum_bounds(s, i + 1);
        assert(s.take(i + 1).drop_last() =~= s.take(i));
        lemma_sum_nonneg(s.take(i));
    }
}

/// Sums of unsigned amounts are nonnegative.
pub proof fn lemma_sum_nonneg(s: Seq<Bin>)
    ensures
        sum_x(s) >= 0,
        sum_y(s) >= 0,
    decreases s.len(),
{
    if s.len() > 0 {
        lemma_sum_nonneg(s.drop_last());
    }
}

/// Positions are sorted strictly by bin id (so ids are unique).
pub open spec fn positions_sorted(s: Seq<Bin>) -> bool {
    forall|i: int, j: int| 0 <= i < j < s.len() ==> s[i].id < s[j].id
}

/// The first position with the given id, if any.
pub open spec fn find_bin_spec(s: Seq<Bin>, id: u32) -> Option<Bin>
    decreases s.len(),
{
    if s.len() == 0 {
        None
    } else if s[0].id == id {
        Some(s[0])
    } else {
        find_bin_spec(s.drop_first(), id)
    }
}

/// The mutable state of the quoter portfolio.
#[derive(Clone, Debug)]
pub struct Portfolio {
    pub x_decimals: u32,
    pub y_decimals: u32,
    /// Contract balances, atomic units.
    pub x_balance: u128,
    pub y_balance: u128,
    /// The portion usable for new actions.
    pub x_free: u128,
    pub y_free: u128,
    /// Owned bins, sorted by id.
    pub positions: Vec<Bin>,
    pub config: PortfolioConfig,
    /// Fee parameter of the pool, basis points.
    pub bin_step: u16,
    /// Timer origins, seconds on a monotonic clock.
    pub last_fee_claim: u64,
    pub last_gas_check: u64,
    pub last_rebalance: u64,
}

impl Portfolio {
    /// Structural invariants of the portfolio state.
    pub open spec fn wf(self) -> bool {
        &&& self.config.valid()
        &&& self.bin_step >= 1
        &&& positions_sorted(self.positions@)
        &&& sum_x(self.positions@) + self.x_free < b128()
        &&& sum_y(self.positions@) + self.y_free < b128()
        &&& self.y_decimals <= self.x_decimals
        &&& self.x_decimals <= self.y_decimals + 20
    }

    /// A fresh portfolio: balances fully free, no positions, fee claim and
    /// gas check immediately due, rebalance timer started now.
    ///
    /// The decimal gap `x_decimals - y_decimals` is capped at twenty places
    /// so that the wad-price multiplier stays within 128 bits.
    pub fn new(
        x_balance: u128,
        y_balance: u128,
        x_decimals: u32,
        y_decimals: u32,
        config: PortfolioConfig,
        bin_step: u16,
        now: u64,
    ) -> (r: Portfolio)
        requires
            config.valid(),
            bin_step >= 1,
            x_balance < u128::MAX,
            y_balance < u128::MAX,
            y_decimals <= x_decimals,
            x_decimals <= y_decimals + 20,
        ensures
            r.wf(),
            r.x_balance == x_balance && r.y_balance == y_balance,
            r.x_free == x_balance && r.y_free == y_balance,
            r.positions@.len() == 0,
            r.config == config,
            r.bin_step == bin_step,
            r.x_decimals == x_decimals && r.y_decimals == y_decimals,
            r.last_fee_claim == if now >= 3600 { now - 3600 } else { 0int },
            r.last_gas_check == if now >= 3600 { now - 3600 } else { 0int },
            r.last_rebalance == now,
    {
        let aged: u64 = if now >= 3600 { now - 3600 } else { 0 };
        Portfolio {
            x_decimals,
            y_decimals,
            x_balance,
            y_balance,
            x_free: x_balance,
            y_free: y_balance,
            positions: Vec::new(),
            config,
            bin_step,
            last_fee_claim: aged,
            last_gas_check: aged,
            last_rebalance: now,
        }
    }

    /// Install a fresh position list read back from the chain, after checking
    /// that it is sorted and small enough for the engine's sums.
    /// Whether a position list is acceptable: sorted strictly by id, with
    /// enough headroom that the deployed sums plus the free balances stay
    /// clear of the word size.
    pub open spec fn accepts_positions(self, bins: Seq<Bin>) -> bool {
        &&& positions_sorted(bins)
        &&& sum_x(bins) + self.x_free <= u128::MAX - 1
        &&& sum_y(bins) + self.y_free <= u128::MAX - 1
    }

    pub fn replace_positions(&mut self, bins: Vec<Bin>) -> (r: bool)
        ensures
            r == old(self).accepts_positions(bins@),
            r ==> *final(self) == (Portfolio { positions: bins, ..*old(self) }),
            !r ==> *final(self) == *old(self),
    {
        let mut i: usize = 0;
        let mut sx: u128 = 0;
        let mut sy: u128 = 0;
        let n = bins.len();
        while i < n
            invariant
                i <= n,
                n == bins@.len(),
                forall|a: int, b: int| 0 <= a < b < i ==> bins@[a].id < bins@[b].id,
                sx == sum_x(bins@.take(i as int)),
                sy == sum_y(bins@.take(i as int)),
                sx <= u128::MAX - 1,
                sy <= u128::MAX - 1,
            decreases n - i,
        {
            if i > 0 && bins[i - 1].id >= bins[i].id {
                proof {
                    assert(!positions_sorted(bins@)) by {
                        if positions_sorted(bins@) {
                            assert(bins@[i - 1].id < bins@[i as int].id);
                        }
                    }
                }
                return false;
            }
            let b = bins[i];
            if b.x > (u128::MAX - 1) - sx || b.y > (u128::MAX - 1) - sy {
                proof {
                    // The prefix already exceeds the headroom, so the whole
                    // list does too.
                    lemma_sum_bounds(bins@, i as int);
                }
                return false;
            }
            proof {
                assert(bins@.take(i + 1).drop_last() =~= bins@.take(i as int));
                assert forall|a: int| 0 <= a < i implies #[trigger] bins@[a].id
                    < bins@[i as int].id by {
                    if a < i - 1 {
                        assert(bins@[a].id < bins@[i - 1].id);
                    }
                }
            }
            sx = sx + b.x;
            sy = sy + b.y;
            i = i + 1;
        }
        proof {
            assert(bins@.take(n as int) =~= bins@);
            lemma_sum_nonneg(bins@);
        }
        if self.x_free > u128::MAX - 1 || self.y_free > u128::MAX - 1 {
            return false;
        }
        if sx >= u128::MAX - self.x_free || sy >= u128::MAX - self.y_free {
            return false;
        }
        self.positions = bins;
        true
    }

    /// Refresh the balances from a chain read; the whole balance is free.
    pub fn refresh_balances(&mut self, x_balance: u128, y_balance: u128)
        ensures
            *final(self) == (Portfolio {
                x_balance,
                y_balance,
                x_free: x_balance,
                y_free: y_balance,
                ..*old(self)
            }),
    {
        self.x_balance = x_balance;
        self.y_balance = y_balance;
        self.x_free = x_balance;
        self.y_free = y_balance;
    }

    /// Value of an x amount in y units: `(px * amt) >> 128` with a Q128.128
    /// price.
    pub fn x_in_terms_of_y(px: U256, amt: u128) -> (r: U256)
        ensures
            r.val() == (px.val() * amt) / b128(),
    {
        shift_down_128(mul_256_u128(px, amt))
    }

    /// Value of a y amount in x units: `(amt << 128) / px` with a Q128.128
    /// price.
    pub fn y_in_terms_of_x(px: U256, amt: u128) -> (r: U256)
        requires
            px.val() > 0,
        ensures
            r.val() == (amt * b128()) / px.val(),
    {
        let shifted = U384 { w2: 0, w1: amt, w0: 0 };
        let (q, rest) = div_384_by_256(shifted, px);
        proof {
            vstd::arithmetic::div_mod::lemma_fundamental_div_mod_converse(
                shifted.val(),
                px.val(),
                q.val(),
                rest.val(),
            );
            assert(shifted.val() == amt * b128()) by (nonlinear_arith)
                requires
                    shifted.val() == 0 * b256() + amt * b128() + 0,
            ;
            // The quotient fits: amt * 2^128 < 2^256 and px >= 1.
            assert(amt * b128() < b256()) by (nonlinear_arith)
                requires
                    0 <= amt < b128() && b256() == b128() * b128(),
            ;
            crate::wide::lemma_u384_val_bounds(q);
            if q.val() >= b256() {
                assert(q.val() * px.val() >= q.val()) by (nonlinear_arith)
                    requires
                        q.val() >= 0 && px.val() >= 1,
                ;
            }
        }
        q.to_u256()
    }

    /// Ideal y for a given x at the bin's reserve ratio, flooring.
    pub open spec fn ratio_calc_y(max_x: int, cur_x: int, cur_y: int) -> int {
        (max_x * cur_y) / cur_x
    }

    /// Ideal x for a given y at the bin's reserve ratio, flooring.
    pub open spec fn ratio_calc_x(max_y: int, cur_x: int, cur_y: int) -> int {
        (max_y * cur_x) / cur_y
    }

    /// The inputs on which `get_ratio` is defined: when both reserves are
    /// live, the two candidate fits must be representable and one of them
    /// must overshoot its budget; any other outcome is a programmer error
    /// and halts the process.
    pub open spec fn ratio_ok(max_x: int, max_y: int, cur_x: int, cur_y: int) -> bool {
        cur_x > 0 && cur_y > 0 ==> {
            &&& Self::ratio_calc_y(max_x, cur_x, cur_y) < b128()
            &&& Self::ratio_calc_x(max_y, cur_x, cur_y) < b128()
            &&& (Self::ratio_calc_x(max_y, cur_x, cur_y) > max_x || Self::ratio_calc_y(
                max_x,
                cur_x,
                cur_y,
            ) > max_y)
        }
    }

    /// What `get_ratio` returns.
    pub open spec fn ratio_spec(max_x: int, max_y: int, cur_x: int, cur_y: int) -> (int, int) {
        if cur_x == 0 {
            (0, max_y)
        } else if cur_y == 0 {
            (max_x, 0)
        } else if Self::ratio_calc_x(max_y, cur_x, cur_y) > max_x {
            (max_x, Self::ratio_calc_y(max_x, cur_x, cur_y))
        } else {
            (Self::ratio_calc_x(max_y, cur_x, cur_y), max_y)
        }
    }

    /// The largest `(x, y)` within the budgets whose ratio matches the bin's
    /// current reserves.
    pub fn get_ratio(max_x: u128, max_y: u128, cur_x: u128, cur_y: u128) -> (r: (u128, u128))
        requires
            Self::ratio_ok(max_x as int, max_y as int, cur_x as int, cur_y as int),
        ensures
            (r.0 as int, r.1 as int) == Self::ratio_spec(
                max_x as int,
                max_y as int,
                cur_x as int,
                cur_y as int,
            ),
    {
        if cur_x == 0 {
            return (0, max_y);
        }
        if cur_y == 0 {
            return (max_x, 0);
        }
        let calculated_y = mul_div_u128(max_x, cur_y, cur_x).to_u128();
        let calculated_x = mul_div_u128(max_y, cur_x, cur_y).to_u128();
        if calculated_x > max_x {
            (max_x, calculated_y)
        } else if calculated_y > max_y {
            (calculated_x, max_y)
        } else {
            proof {
                assert(false);
            }
            (0, 0)
        }
    }

    /// The fitted amounts saturate one of the two budgets and never exceed
    /// either.
    pub proof fn lemma_get_ratio_saturates(max_x: int, max_y: int, cur_x: int, cur_y: int)
        requires
            0 <= max_x,
            0 <= max_y,
            cur_x > 0,
            cur_y > 0,
            Self::ratio_ok(max_x, max_y, cur_x, cur_y),
        ensures
            Self::ratio_spec(max_x, max_y, cur_x, cur_y).0 <= max_x,
            Self::ratio_spec(max_x, max_y, cur_x, cur_y).1 <= max_y,
            Self::ratio_spec(max_x, max_y, cur_x, cur_y).0 == max_x || Self::ratio_spec(
                max_x,
                max_y,
                cur_x,
                cur_y,
            ).1 == max_y,
    {
        let cy = Self::ratio_calc_y(max_x, cur_x, cur_y);
        let cx = Self::ratio_calc_x(max_y, cur_x, cur_y);
        vstd::arithmetic::div_mod::lemma_fundamental_div_mod(max_x * cur_y, cur_x);
        vstd::arithmetic::div_mod::lemma_fundamental_div_mod(max_y * cur_x, cur_y);
        if cx > max_x {
            // cy <= max_y: otherwise cy >= max_y + 1, and chaining the two
            // floor decompositions contradicts itself.
            if cy > max_y {
                assert(cy * cur_x <= max_x * cur_y) by {
                    assert(max_x * cur_y == cy * cur_x + (max_x * cur_y) % cur_x);
                }
                assert((max_y + 1) * cur_x <= cy * cur_x) by (nonlinear_arith)
                    requires
                        cy >= max_y + 1 && cur_x > 0,
                ;
                assert(cx * cur_y <= max_y * cur_x) by {
                    assert(max_y * cur_x == cx * cur_y + (max_y * cur_x) % cur_y);
                }
                assert((max_x + 1) * cur_y <= cx * cur_y) by (nonlinear_arith)
                    requires
                        cx >= max_x + 1 && cur_y > 0,
                ;
                assert((max_y + 1) * cur_x > max_y * cur_x) by (nonlinear_arith)
                    requires
                        cur_x > 0,
                ;
                assert((max_x + 1) * cur_y > max_x * cur_y) by (nonlinear_arith)
                    requires
                        cur_y > 0,
                ;
                assert(false);
            }
        }
    }

    /// Converting into y units and back never grows the amount.
    pub proof fn lemma_conv_le(p: int, a: int, v: int)
        requires
            p >= 1,
            a >= 0,
            0 <= v <= (p * a) / b128(),
        ensures
            (v * b128()) / p <= a,
    {
        vstd::arithmetic::div_mod::lemma_fundamental_div_mod(p * a, b128());
        let q = (p * a) / b128();
        assert(v * b128() <= q * b128()) by (nonlinear_arith)
            requires
                0 <= v <= q,
        ;
        assert(q * b128() <= p * a);
        vstd::arithmetic::div_mod::lemma_div_is_ordered(v * b128(), p * a, p);
        assert((p * a) / p == a) by {
            vstd::arithmetic::div_mod::lemma_div_multiples_vanish(a, p);
        }
    }

    /// `x_in_terms_of_y` and `y_in_terms_of_x` are inverses up to one unit
    /// in the last place, for prices of at least one.
    pub proof fn lemma_conv_round_trip(p: int, a: int)
        requires
            b128() <= p < b256(),
            0 <= a < b128(),
        ensures
            (((p * a) / b128()) * b128()) / p <= a,
            a <= (((p * a) / b128()) * b128()) / p + 1,
    {
        let v = (p * a) / b128();
        vstd::arithmetic::div_mod::lemma_fundamental_div_mod(p * a, b128());
        assert(p * a >= 0) by (nonlinear_arith)
            requires
                p >= 0 && a >= 0,
        ;
        vstd::arithmetic::div_mod::lemma_div_is_ordered(0, p * a, b128());
        Self::lemma_conv_le(p, a, v);
        // Lower bound: v*b128 >= p*a - (b128 - 1) >= p*(a-1) + 1.
        let w = (v * b128()) / p;
        assert(v * b128() == p * a - (p * a) % b128());
        if a > 0 {
            assert(p * a - (b128() - 1) >= p * (a - 1) + 1) by (nonlinear_arith)
                requires
                    p >= b128(),
            ;
            vstd::arithmetic::div_mod::lemma_div_is_ordered(p * (a - 1), v * b128(), p);
            vstd::arithmetic::div_mod::lemma_div_multiples_vanish(a - 1, p);
        }
    }
}

} // verus!
