//! Execution intents and the on-chain execution sequencer state.
//!
//! The sequencer turns an [`Execute`] intent into a planned contract call:
//! it resolves ticks, derives fixed-point distribution weights, enforces the
//! rolling transaction rate limit and the gas policy, and tracks transaction
//! receipts.  The submission itself — signing and broadcasting — is left to
//! the caller; everything decided here is verified.

use vstd::prelude::*;
use crate::wide::{U256, U384, b128, b256, div_384_by_256, mul_u128, mul_256_u128};

verus! {

/// An execution intent, at most one per decision-engine evaluation.
#[derive(Clone, Debug, PartialEq, Eq)]
pub enum Execute {
    Make(Vec<(Tick, u128, u128)>),
    Move { from: Vec<(Tick, u128)>, to: Vec<(Tick, u128, u128)> },
    Cancel(Vec<(Tick, u128)>),
    Take { amt_in: u128, amt_out: u128, swap_for_y: bool },
    CancelNTake { amt_in: u128, amt_out: u128, swap_for_y: bool, orders: Vec<(Tick, u128)> },
    Claim,
    CheckGas,
}

/// How a bin is addressed in an intent.
#[derive(Clone, Copy, Debug, PartialEq, Eq)]
pub enum Tick {
    Delta(i32),
    Exact(u32),
}

/// A token amount addressed by an intent.
#[derive(Clone, Copy, Debug, PartialEq, Eq)]
pub enum Amount {
    Notional(u128),
    Exact(u128, u128),
    All,
}

impl Execute {
    /// True for the intents that post or move liquidity.
    pub open spec fn is_make_or_move(self) -> bool {
        self is Make || self is Move
    }
}

/// Number of submissions in the window `(t - 300, t]` that posted or moved
/// liquidity.
pub open spec fn makes_in_window(h: Seq<(u64, bool)>, t: int) -> int
    decreases h.len(),
{
    if h.len() == 0 {
        0
    } else {
        makes_in_window(h.drop_last(), t) + if h.last().1 && t - 300 < h.last().0 <= t {
            1int
        } else {
            0int
        }
    }
}

/// Number of make/move submissions at or after time `t`.
pub open spec fn makes_geq(h: Seq<(u64, bool)>, t: int) -> int
    decreases h.len(),
{
    if h.len() == 0 {
        0
    } else {
        makes_geq(h.drop_last(), t) + if h.last().1 && h.last().0 >= t {
            1int
        } else {
            0int
        }
    }
}

/// Number of timestamps at or after `t`.
pub open spec fn stamps_geq(s: Seq<u64>, t: int) -> int
    decreases s.len(),
{
    if s.len() == 0 {
        0
    } else {
        stamps_geq(s.drop_last(), t) + if s.last() >= t {
            1int
        } else {
            0int
        }
    }
}

/// Timestamps in nondecreasing order.
pub open spec fn stamps_sorted(s: Seq<u64>) -> bool {
    forall|i: int, j: int| 0 <= i < j < s.len() ==> s[i] <= s[j]
}

/// Every make in the window `(t-300, t]` sits at or after `t - 299`.
proof fn lemma_window_le_geq(h: Seq<(u64, bool)>, t: int)
    ensures
        makes_in_window(h, t) <= makes_geq(h, t - 299),
    decreases h.len(),
{
    if h.len() > 0 {
        lemma_window_le_geq(h.drop_last(), t);
    }
}

/// Later thresholds count fewer makes.
proof fn lemma_makes_geq_mono(h: Seq<(u64, bool)>, t1: int, t2: int)
    requires
        t1 <= t2,
    ensures
        makes_geq(h, t2) <= makes_geq(h, t1),
    decreases h.len(),
{
    if h.len() > 0 {
        lemma_makes_geq_mono(h.drop_last(), t1, t2);
    }
}

/// With all stamps at most `hi`, a window reaching `hi` covers every make at
/// or after its start.
proof fn lemma_geq_le_window(h: Seq<(u64, bool)>, t: int, hi: int)
    requires
        forall|i: int| 0 <= i < h.len() ==> h[i].0 <= hi,
        t > hi - 300,
    ensures
        makes_geq(h, t) <= makes_in_window(h, hi),
    decreases h.len(),
{
    if h.len() > 0 {
        assert(forall|i: int| 0 <= i < h.drop_last().len() ==> h.drop_last()[i].0 <= hi);
        lemma_geq_le_window(h.drop_last(), t, hi);
    }
}

/// Pushing one entry changes the counts by at most that entry.
proof fn lemma_counts_push(h: Seq<(u64, bool)>, e: (u64, bool), t: int)
    ensures
        makes_in_window(h.push(e), t) == makes_in_window(h, t) + if e.1 && t - 300 < e.0 <= t {
            1int
        } else {
            0int
        },
        makes_geq(h.push(e), t) == makes_geq(h, t) + if e.1 && e.0 >= t {
            1int
        } else {
            0int
        },
{
    assert(h.push(e).drop_last() =~= h);
}

/// Pushing a stamp raises `stamps_geq` by at most one.
proof fn lemma_stamps_push(s: Seq<u64>, v: u64, t: int)
    ensures
        stamps_geq(s.push(v), t) == stamps_geq(s, t) + if v >= t {
            1int
        } else {
            0int
        },
{
    assert(s.push(v).drop_last() =~= s);
}

/// Dropping the front stamp lowers `stamps_geq` by at most that stamp.
proof fn lemma_stamps_drop_first(s: Seq<u64>, t: int)
    requires
        s.len() > 0,
    ensures
        stamps_geq(s.drop_first(), t) == stamps_geq(s, t) - if s[0] >= t {
            1int
        } else {
            0int
        },
    decreases s.len(),
{
    if s.len() == 1 {
        assert(s.drop_first().len() == 0);
        assert(s.drop_last().len() == 0);
        assert(s.last() == s[0]);
        assert(stamps_geq(s.drop_first(), t) == 0);
        assert(stamps_geq(s.drop_last(), t) == 0);
    } else {
        let dl = s.drop_last();
        let df = s.drop_first();
        lemma_stamps_drop_first(dl, t);
        assert(df.drop_last() =~= dl.drop_first());
        assert(df.last() == s.last());
        assert(dl[0] == s[0]);
        assert(stamps_geq(df, t) == stamps_geq(df.drop_last(), t) + if df.last() >= t {
            1int
        } else {
            0int
        });
        assert(stamps_geq(s, t) == stamps_geq(dl, t) + if s.last() >= t {
            1int
        } else {
            0int
        });
    }
}

/// In a sorted list every stamp at or after `t` is counted, so the count is
/// bounded by the length, and equals it when even the front qualifies.
proof fn lemma_stamps_all(s: Seq<u64>, t: int)
    requires
        stamps_sorted(s),
        s.len() > 0 ==> s[0] >= t,
    ensures
        stamps_geq(s, t) == s.len(),
    decreases s.len(),
{
    if s.len() > 0 {
        assert(forall|i: int, j: int|
            0 <= i < j < s.drop_last().len() ==> s.drop_last()[i] <= s.drop_last()[j]) by {
            assert(forall|i: int| 0 <= i < s.drop_last().len() ==> s.drop_last()[i] == s[i]);
        }
        if s.len() > 1 {
            assert(s.drop_last()[0] == s[0]);
        }
        lemma_stamps_all(s.drop_last(), t);
        assert(s.last() >= t) by {
            if s.len() > 1 {
                assert(s[0] <= s[s.len() - 1]);
            }
        }
    }
}

/// `stamps_geq` never exceeds the length.
proof fn lemma_stamps_le_len(s: Seq<u64>, t: int)
    ensures
        0 <= stamps_geq(s, t) <= s.len(),
    decreases s.len(),
{
    if s.len() > 0 {
        lemma_stamps_le_len(s.drop_last(), t);
    }
}

/// The execution sequencer's decision state: rate limiting, touched bins,
/// and receipt bookkeeping.  Submission itself is the caller's job; the
/// ghost history records every accepted submission and carries the proof
/// that the rolling window limit is never exceeded.
pub struct Executor {
    pub config: crate::portfolio::PortfolioConfig,
    /// Transactions mined with failure status since the last success.
    pub consecutive_failures: u32,
    /// Bin ids touched by makes and moves since the last fee claim; sorted
    /// and unique.
    pub bins_touched: Vec<u32>,
    /// Timestamps of accepted submissions, oldest first.
    pub sent_ts: Vec<u64>,
    /// The latest clock reading seen.
    pub last_now: u64,
    /// Every accepted submission: timestamp and whether it was a make/move.
    pub history: Ghost<Seq<(u64, bool)>>,
}

impl Executor {
    /// Structural invariants, including the rate-limit law: no window of 300
    /// seconds ever holds more than `tx_limit_5min` accepted make/move
    /// submissions.
    pub open spec fn wf(self) -> bool {
        &&& self.config.valid()
        &&& stamps_sorted(self.sent_ts@)
        &&& forall|i: int| 0 <= i < self.sent_ts@.len() ==> self.sent_ts@[i] <= self.last_now
        &&& forall|i: int| 0 <= i < self.history@.len() ==> #[trigger] self.history@[i].0
            <= self.last_now
        &&& forall|t: int| #[trigger] makes_in_window(self.history@, t)
            <= self.config.tx_limit_5min
        &&& forall|t: int|
            t > self.last_now - 300 ==> #[trigger] stamps_geq(self.sent_ts@, t) >= makes_geq(
                self.history@,
                t,
            )
        &&& forall|i: int, j: int|
            0 <= i < j < self.bins_touched@.len() ==> self.bins_touched@[i]
                < self.bins_touched@[j]
    }

    pub fn new(config: crate::portfolio::PortfolioConfig, now: u64) -> (r: Executor)
        requires
            config.valid(),
        ensures
            r.wf(),
            r.config == config,
            r.consecutive_failures == 0,
            r.bins_touched@.len() == 0,
            r.sent_ts@.len() == 0,
            r.history@.len() == 0,
            r.last_now == now,
    {
        Executor {
            config,
            consecutive_failures: 0,
            bins_touched: Vec::new(),
            sent_ts: Vec::new(),
            last_now: now,
            history: Ghost(Seq::empty()),
        }
    }

    /// The rolling-window rate limiter.  Make/move submissions are refused
    /// while the window is full; other submissions trim the list to its
    /// newest entries.  Returns whether the submission may go out.
    pub fn submit_gate(&mut self, is_make_move: bool, now: u64) -> (r: bool)
        requires
            old(self).wf(),
            now >= old(self).last_now,
        ensures
            final(self).wf(),
            final(self).config == old(self).config,
            final(self).consecutive_failures == old(self).consecutive_failures,
            final(self).bins_touched == old(self).bins_touched,
            final(self).last_now == now,
            r ==> final(self).history@ == old(self).history@.push((now, is_make_move)),
            !r ==> final(self).history@ == old(self).history@,
            !r ==> is_make_move,
            is_make_move ==> r == (stamps_geq(old(self).sent_ts@, now - 299)
                < old(self).config.tx_limit_5min),
    {
        let ghost h0 = self.history@;
        let ghost s0 = self.sent_ts@;
        let ghost pre_last = self.last_now;
        let limit = self.config.tx_limit_5min;
        self.last_now = now;
        if is_make_move {
            // Evict entries that have left the window, then refuse while the
            // window is still full.
            while self.sent_ts.len() > 0 && now >= 300 && self.sent_ts[0] <= now - 300
                invariant
                    stamps_sorted(self.sent_ts@),
                    forall|i: int| 0 <= i < self.sent_ts@.len() ==> self.sent_ts@[i]
                        <= self.last_now,
                    self.last_now == now,
                    self.history@ == h0,
                    self.config == old(self).config,
                    self.consecutive_failures == old(self).consecutive_failures,
                    self.bins_touched == old(self).bins_touched,
                    forall|t: int|
                        t > now - 300 ==> #[trigger] stamps_geq(self.sent_ts@, t) == stamps_geq(
                            s0,
                            t,
                        ),
                decreases self.sent_ts@.len(),
            {
                let ghost sp = self.sent_ts@;
                proof {
                    assert(forall|i: int|
                        0 <= i < sp.drop_first().len() ==> sp.drop_first()[i] == sp[i + 1]);
                }
                self.sent_ts.remove(0);
                proof {
                    assert(self.sent_ts@ =~= sp.drop_first());
                    assert forall|t: int| t > now - 300 implies #[trigger] stamps_geq(
                        self.sent_ts@,
                        t,
                    ) == stamps_geq(s0, t) by {
                        lemma_stamps_drop_first(sp, t);
                        assert(stamps_geq(sp, t) == stamps_geq(s0, t));
                        assert(stamps_geq(self.sent_ts@, t) == stamps_geq(sp.drop_first(), t));
                    }
                }
            }
            let fresh = self.sent_ts.len();
            proof {
                // The remaining entries are all inside the window.
                lemma_stamps_all(self.sent_ts@, (now - 299) as int);
                lemma_stamps_le_len(self.sent_ts@, (now - 299) as int);
                assert(stamps_geq(self.sent_ts@, now - 299) == fresh);
            }
            if fresh >= limit {
                proof {
                    assert forall|t: int| t > now - 300 implies stamps_geq(self.sent_ts@, t)
                        >= makes_geq(self.history@, t) by {
                        assert(t > pre_last - 300);
                        assert(makes_geq(h0, t) <= stamps_geq(s0, t));
                        assert(stamps_geq(self.sent_ts@, t) == stamps_geq(s0, t));
                        assert(self.history@ == h0);
                    }
                }
                return false;
            }
            let ghost s1 = self.sent_ts@;
            proof {
                assert(stamps_geq(s1, now - 299) == stamps_geq(s0, now - 299));
                assert(now - 299 > pre_last - 300);
                assert(makes_geq(h0, now - 299) <= stamps_geq(s0, now - 299));
            }
            self.sent_ts.push(now);
            proof {
                self.history@ = h0.push((now, true));
                assert forall|i: int, j: int|
                    0 <= i < j < self.sent_ts@.len() implies self.sent_ts@[i]
                    <= self.sent_ts@[j] by {
                    if j < s1.len() {
                        assert(s1[i] <= s1[j]);
                    } else {
                        assert(self.sent_ts@[i] == s1[i] && s1[i] <= now);
                    }
                }
                // The window law: a window that gains the new make held
                // fewer than the limit before it.
                assert forall|t: int| makes_in_window(self.history@, t)
                    <= self.config.tx_limit_5min by {
                    lemma_counts_push(h0, (now, true), t);
                    if t - 300 < now <= t {
                        lemma_window_le_geq(h0, t);
                        lemma_makes_geq_mono(h0, now - 299, t - 299);
                        assert(makes_in_window(h0, t) <= makes_geq(h0, now - 299));
                        assert(makes_geq(h0, now - 299) < limit);
                    }
                }
                // The stamp cover: both sides gain the same entry.
                assert forall|t: int| t > now - 300 implies stamps_geq(self.sent_ts@, t)
                    >= makes_geq(self.history@, t) by {
                    lemma_counts_push(h0, (now, true), t);
                    lemma_stamps_push(s1, now, t);
                    assert(stamps_geq(s1, t) == stamps_geq(s0, t));
                    assert(t > pre_last - 300);
                }
            }
            true
        } else {
            // Best-effort trim to the newest entries, then record.
            while self.sent_ts.len() > limit
                invariant
                    stamps_sorted(self.sent_ts@),
                    forall|i: int| 0 <= i < self.sent_ts@.len() ==> self.sent_ts@[i]
                        <= self.last_now,
                    self.last_now == now,
                    self.history@ == h0,
                    self.config == old(self).config,
                    self.consecutive_failures == old(self).consecutive_failures,
                    self.bins_touched == old(self).bins_touched,
                    limit == old(self).config.tx_limit_5min,
                    forall|t: int| #[trigger] stamps_geq(self.sent_ts@, t) >= ({
                        let c = stamps_geq(s0, t);
                        if c <= limit {
                            c
                        } else {
                            limit as int
                        }
                    }),
                decreases self.sent_ts@.len(),
            {
                let ghost sp = self.sent_ts@;
                proof {
                    assert forall|t: int| stamps_geq(sp.drop_first(), t) >= ({
                        let c = stamps_geq(s0, t);
                        if c <= limit {
                            c
                        } else {
                            limit as int
                        }
                    }) by {
                        lemma_stamps_drop_first(sp, t);
                        lemma_stamps_le_len(sp.drop_first(), t);
                        if sp[0] >= t {
                            lemma_stamps_all(sp, sp[0] as int);
                            lemma_stamps_all(sp, t);
                        }
                    }
                    assert(forall|i: int|
                        0 <= i < sp.drop_first().len() ==> sp.drop_first()[i] == sp[i + 1]);
                }
                self.sent_ts.remove(0);
                proof {
                    assert(self.sent_ts@ =~= sp.drop_first());
                }
            }
            let ghost s1 = self.sent_ts@;
            self.sent_ts.push(now);
            proof {
                self.history@ = h0.push((now, false));
                assert forall|i: int, j: int|
                    0 <= i < j < self.sent_ts@.len() implies self.sent_ts@[i]
                    <= self.sent_ts@[j] by {
                    if j < s1.len() {
                        assert(s1[i] <= s1[j]);
                    } else {
                        assert(self.sent_ts@[i] == s1[i] && s1[i] <= now);
                    }
                }
                assert forall|t: int| makes_in_window(self.history@, t)
                    <= self.config.tx_limit_5min by {
                    assert(makes_in_window(h0, t) <= limit);
                    lemma_counts_push(h0, (now, false), t);
                    assert(makes_in_window(self.history@, t) == makes_in_window(h0, t));
                }
                assert forall|t: int| t > now - 300 implies stamps_geq(self.sent_ts@, t)
                    >= makes_geq(self.history@, t) by {
                    lemma_counts_push(h0, (now, false), t);
                    lemma_stamps_push(s1, now, t);
                    // Trimmed stamps still cover the makes, which never
                    // exceed the limit in the live window.
                    lemma_geq_le_window(h0, t, pre_last as int);
                    lemma_stamps_le_len(s1, t);
                    assert(t > pre_last - 300);
                    assert(makes_geq(h0, t) <= makes_in_window(h0, pre_last as int));
                    assert(makes_in_window(h0, pre_last as int) <= limit);
                    assert(stamps_geq(s0, t) >= makes_geq(h0, t));
                }
            }
            true
        }
    }
}

/// In any 300-second window, the accepted make/move submissions never
/// exceed the configured limit.
pub proof fn lemma_rate_limit_window(ex: Executor, t: int)
    requires
        ex.wf(),
    ensures
        makes_in_window(ex.history@, t) <= ex.config.tx_limit_5min,
{
}

/// A resolved bin address: delta ticks are relative to the active bin.
pub open spec fn resolve_tick_spec(t: Tick, curid: u32) -> int {
    match t {
        Tick::Delta(d) => curid + d,
        Tick::Exact(e) => e as int,
    }
}

/// Sum of the x amounts of a maker order list.
pub open spec fn orders_sum_x(o: Seq<(Tick, u128, u128)>) -> int
    decreases o.len(),
{
    if o.len() == 0 {
        0
    } else {
        orders_sum_x(o.drop_last()) + o.last().1
    }
}

/// Sum of the y amounts of a maker order list.
pub open spec fn orders_sum_y(o: Seq<(Tick, u128, u128)>) -> int
    decreases o.len(),
{
    if o.len() == 0 {
        0
    } else {
        orders_sum_y(o.drop_last()) + o.last().2
    }
}

/// An 18-decimal fixed-point distribution weight.
pub open spec fn dist_of(amt: u128, total: int) -> u128 {
    if total == 0 {
        0u128
    } else {
        ((amt * 1_000_000_000_000_000_000) / total) as u128
    }
}

pub open spec fn make_ids_spec(o: Seq<(Tick, u128, u128)>, curid: u32) -> Seq<u32> {
    o.map(|i: int, e: (Tick, u128, u128)| resolve_tick_spec(e.0, curid) as u32)
}

pub open spec fn dist_x_spec(o: Seq<(Tick, u128, u128)>, total: int) -> Seq<u128> {
    o.map(|i: int, e: (Tick, u128, u128)| dist_of(e.1, total))
}

pub open spec fn dist_y_spec(o: Seq<(Tick, u128, u128)>, total: int) -> Seq<u128> {
    o.map(|i: int, e: (Tick, u128, u128)| dist_of(e.2, total))
}

pub open spec fn cancel_ids_spec(o: Seq<(Tick, u128)>) -> Seq<u32> {
    o.map(
        |i: int, e: (Tick, u128)|
            match e.0 {
                Tick::Exact(x) => x,
                Tick::Delta(_) => 0u32,
            },
    )
}

pub open spec fn cancel_amts_spec(o: Seq<(Tick, u128)>) -> Seq<u128> {
    o.map(|i: int, e: (Tick, u128)| e.1)
}

/// All maker ticks resolve to a representable bin id.
pub open spec fn ticks_resolvable(o: Seq<(Tick, u128, u128)>, curid: u32) -> bool {
    forall|i: int|
        0 <= i < o.len() ==> 0 <= resolve_tick_spec(#[trigger] o[i].0, curid) < 0x1_0000_0000
}

/// Cancellation entries carry an exact tick and a live, non-sentinel token
/// amount; anything else is a programmer error that halts the process.
pub open spec fn cancels_wf(o: Seq<(Tick, u128)>) -> bool {
    forall|i: int|
        0 <= i < o.len() ==> (#[trigger] o[i]).0 is Exact && o[i].1 != 0 && o[i].1
            != u128::MAX
}

/// Prefix sums of the maker amounts stay within the totals.
proof fn lemma_orders_prefix(o: Seq<(Tick, u128, u128)>, i: int)
    requires
        0 <= i <= o.len(),
    ensures
        0 <= orders_sum_x(o.take(i)) <= orders_sum_x(o),
        0 <= orders_sum_y(o.take(i)) <= orders_sum_y(o),
        i < o.len() ==> orders_sum_x(o.take(i)) + o[i].1 <= orders_sum_x(o),
        i < o.len() ==> orders_sum_y(o.take(i)) + o[i].2 <= orders_sum_y(o),
    decreases o.len() - i,
{
    if i == o.len() {
        assert(o.take(i) =~= o);
        lemma_orders_nonneg(o);
    } else {
        lemma_orders_prefix(o, i + 1);
        assert(o.take(i + 1).drop_last() =~= o.take(i));
        lemma_orders_nonneg(o.take(i));
    }
}

proof fn lemma_orders_nonneg(o: Seq<(Tick, u128, u128)>)
    ensures
        orders_sum_x(o) >= 0,
        orders_sum_y(o) >= 0,
    decreases o.len(),
{
    if o.len() > 0 {
        lemma_orders_nonneg(o.drop_last());
    }
}

/// A contract call, fully encoded but not yet signed or sent.
#[derive(Clone, Debug, PartialEq, Eq)]
pub enum PlannedCall {
    MakeCall {
        curid: u32,
        amount_x: u128,
        amount_y: u128,
        bin_ids: Vec<u32>,
        distribution_x: Vec<u128>,
        distribution_y: Vec<u128>,
    },
    MoveCall {
        curid: u32,
        amount_x: u128,
        amount_y: u128,
        ids_in: Vec<u32>,
        distribution_x: Vec<u128>,
        distribution_y: Vec<u128>,
        ids_out: Vec<u32>,
        amounts: Vec<u128>,
    },
    CancelCall { ids: Vec<u32>, amounts: Vec<u128> },
    TakeCall { curid: u32, amount_x: u128, amount_y: u128, swap_for_y: bool },
    CancelNTakeCall {
        curid: u32,
        amount_x: u128,
        amount_y: u128,
        swap_for_y: bool,
        ids: Vec<u32>,
        amounts: Vec<u128>,
    },
}

/// A planned transaction: the call, the flat gas limit, and whether the
/// taker gas-price multiplier applies.
#[derive(Clone, Debug, PartialEq, Eq)]
pub struct PlannedTx {
    pub call: PlannedCall,
    pub gas_limit: u64,
    pub taker_gas: bool,
}

/// Does a sorted id list hold this id?
pub open spec fn ids_has(s: Seq<u32>, v: u32) -> bool {
    exists|i: int| 0 <= i < s.len() && s[i] == v
}

/// The outcome of a mined transaction receipt.
#[derive(Clone, Copy, Debug, PartialEq, Eq)]
pub enum ReceiptOutcome {
    /// Mined with success status in this block.
    Mined(u64),
    /// Mined with failure status; the process may continue.
    Failed,
    /// Too many consecutive failures; the process must stop.
    FatalFailure,
}

impl Executor {
    /// Record a touched bin, keeping the set sorted and unique.
    fn touch(&mut self, id: u32)
        requires
            forall|i: int, j: int|
                0 <= i < j < old(self).bins_touched@.len() ==> old(self).bins_touched@[i]
                    < old(self).bins_touched@[j],
        ensures
            *final(self) == (Executor { bins_touched: final(self).bins_touched, ..*old(self) }),
            forall|i: int, j: int|
                0 <= i < j < final(self).bins_touched@.len() ==> final(self).bins_touched@[i]
                    < final(self).bins_touched@[j],
            forall|v: u32|
                ids_has(final(self).bins_touched@, v) == (ids_has(old(self).bins_touched@, v)
                    || v == id),
    {
        let ghost b0 = self.bins_touched@;
        let n = self.bins_touched.len();
        let mut i: usize = 0;
        while i < n && self.bins_touched[i] < id
            invariant
                i <= n,
                n == self.bins_touched@.len(),
                self.bins_touched@ == b0,
                forall|j: int| 0 <= j < i ==> b0[j] < id,
            decreases n - i,
        {
            i = i + 1;
        }
        if i < n && self.bins_touched[i] == id {
            proof {
                assert(ids_has(b0, id));
            }
            return ;
        }
        self.bins_touched.insert(i, id);
        proof {
            let b1 = self.bins_touched@;
            assert(b1 =~= b0.take(i as int).push(id) + b0.skip(i as int));
            assert forall|p: int, q: int| 0 <= p < q < b1.len() implies b1[p] < b1[q] by {
                assert(forall|j: int| 0 <= j < i ==> b1[j] == b0[j]);
                assert(b1[i as int] == id);
                assert(forall|j: int| i < j < b1.len() ==> b1[j] == b0[j - 1]);
                if i < n {
                    assert(b0[i as int] != id && !(b0[i as int] < id));
                }
            }
            assert forall|v: u32| ids_has(b1, v) == (ids_has(b0, v) || v == id) by {
                if ids_has(b0, v) {
                    let w = choose|j: int| 0 <= j < b0.len() && b0[j] == v;
                    if w < i {
                        assert(b1[w] == v);
                    } else {
                        assert(b1[w + 1] == v);
                    }
                }
                if ids_has(b1, v) && v != id {
                    let w = choose|j: int| 0 <= j < b1.len() && b1[j] == v;
                    if w < i {
                        assert(b0[w] == v);
                    } else {
                        assert(w != i);
                        assert(b0[w - 1] == v);
                    }
                }
                assert(b1[i as int] == id);
            }
        }
    }

    /// Encode the maker side of a make or move: totals, resolved bin ids and
    /// 18-decimal distribution weights, recording every touched bin.
    fn encode_maker(&mut self, orders: &Vec<(Tick, u128, u128)>, curid: u32) -> (r: (
        u128,
        u128,
        Vec<u32>,
        Vec<u128>,
        Vec<u128>,
    ))
        requires
            old(self).wf(),
            orders_sum_x(orders@) < crate::wide::b128(),
            orders_sum_y(orders@) < crate::wide::b128(),
            ticks_resolvable(orders@, curid),
        ensures
            final(self).wf(),
            *final(self) == (Executor { bins_touched: final(self).bins_touched, ..*old(self) }),
            r.0 == orders_sum_x(orders@),
            r.1 == orders_sum_y(orders@),
            r.2@ == make_ids_spec(orders@, curid),
            r.3@ == dist_x_spec(orders@, orders_sum_x(orders@)),
            r.4@ == dist_y_spec(orders@, orders_sum_y(orders@)),
            forall|v: u32|
                ids_has(final(self).bins_touched@, v) == (ids_has(old(self).bins_touched@, v)
                    || ids_has(make_ids_spec(orders@, curid), v)),
    {
        let ghost o = orders@;
        let n = orders.len();
        // First pass: totals.
        let mut ax: u128 = 0;
        let mut ay: u128 = 0;
        let mut i: usize = 0;
        while i < n
            invariant
                i <= n,
                n == o.len(),
                o == orders@,
                orders_sum_x(o) < crate::wide::b128(),
                orders_sum_y(o) < crate::wide::b128(),
                ax == orders_sum_x(o.take(i as int)),
                ay == orders_sum_y(o.take(i as int)),
            decreases n - i,
        {
            proof {
                lemma_orders_prefix(o, i as int);
                lemma_orders_prefix(o, i as int + 1);
                assert(o.take(i as int + 1).drop_last() =~= o.take(i as int));
            }
            ax = ax + orders[i].1;
            ay = ay + orders[i].2;
            i = i + 1;
        }
        proof {
            assert(o.take(n as int) =~= o);
        }
        // Second pass: resolved ids and distribution weights.
        let mut ids: Vec<u32> = Vec::new();
        let mut dx: Vec<u128> = Vec::new();
        let mut dy: Vec<u128> = Vec::new();
        let mut k: usize = 0;
        while k < n
            invariant
                k <= n,
                n == o.len(),
                o == orders@,
                orders_sum_x(o) < crate::wide::b128(),
                orders_sum_y(o) < crate::wide::b128(),
                ax == orders_sum_x(o),
                ay == orders_sum_y(o),
                ticks_resolvable(o, curid),
                self.wf(),
                *self == (Executor { bins_touched: self.bins_touched, ..*old(self) }),
                ids@ =~= make_ids_spec(o.take(k as int), curid),
                dx@ =~= dist_x_spec(o.take(k as int), ax as int),
                dy@ =~= dist_y_spec(o.take(k as int), ay as int),
                forall|v: u32|
                    ids_has(self.bins_touched@, v) == (ids_has(old(self).bins_touched@, v)
                        || ids_has(make_ids_spec(o.take(k as int), curid), v)),
            decreases n - k,
        {
            let (tick, x, y) = (orders[k].0, orders[k].1, orders[k].2);
            let id: u32 = match tick {
                Tick::Delta(d) => {
                    proof {
                        assert(0 <= resolve_tick_spec(o[k as int].0, curid) < 0x1_0000_0000);
                    }
                    let dw: i64 = d as i64;
                    if dw >= 0 {
                        curid + (dw as u32)
                    } else {
                        let m: i64 = -dw;
                        curid - (m as u32)
                    }
                },
                Tick::Exact(e) => e,
            };
            proof {
                assert(id == resolve_tick_spec(o[k as int].0, curid) as u32);
            }
            self.touch(id);
            ids.push(id);
            let wx: u128 = if ax == 0 {
                0
            } else {
                proof {
                    lemma_orders_prefix(o, k as int);
                }
                crate::wide::mul_div_swap_capped(x, 1_000_000_000_000_000_000, ax)
            };
            let wy: u128 = if ay == 0 {
                0
            } else {
                proof {
                    lemma_orders_prefix(o, k as int);
                }
                crate::wide::mul_div_swap_capped(y, 1_000_000_000_000_000_000, ay)
            };
            dx.push(wx);
            dy.push(wy);
            proof {
                assert(o.take(k as int + 1).drop_last() =~= o.take(k as int));
                assert(make_ids_spec(o.take(k as int + 1), curid) =~= make_ids_spec(o.take(
                    k as int), curid).push(id));
                assert(wx == dist_of(x, ax as int));
                assert(wy == dist_of(y, ay as int));
                assert(dist_x_spec(o.take(k as int + 1), ax as int) =~= dist_x_spec(o.take(
                    k as int), ax as int).push(wx));
                assert(dist_y_spec(o.take(k as int + 1), ay as int) =~= dist_y_spec(o.take(
                    k as int), ay as int).push(wy));
                assert forall|v: u32| ids_has(make_ids_spec(o.take(k as int + 1), curid), v)
                    == (ids_has(make_ids_spec(o.take(k as int), curid), v) || v == id) by {
                    let prev = make_ids_spec(o.take(k as int), curid);
                    let next = make_ids_spec(o.take(k as int + 1), curid);
                    assert(next =~= prev.push(id));
                    if ids_has(prev, v) {
                        let w = choose|j: int| 0 <= j < prev.len() && prev[j] == v;
                        assert(next[w] == v);
                    }
                    if ids_has(next, v) {
                        let w = choose|j: int| 0 <= j < next.len() && next[j] == v;
                        if w < prev.len() {
                            assert(prev[w] == v);
                        }
                    }
                    assert(next[next.len() - 1] == id);
                }
            }
            k = k + 1;
        }
        proof {
            assert(o.take(n as int) =~= o);
        }
        (ax, ay, ids, dx, dy)
    }

    /// Split a cancellation list into exact ids and token amounts.
    fn encode_cancels(&self, orders: &Vec<(Tick, u128)>) -> (r: (Vec<u32>, Vec<u128>))
        requires
            cancels_wf(orders@),
        ensures
            r.0@ == cancel_ids_spec(orders@),
            r.1@ == cancel_amts_spec(orders@),
    {
        let ghost o = orders@;
        let n = orders.len();
        let mut ids: Vec<u32> = Vec::new();
        let mut amts: Vec<u128> = Vec::new();
        let mut i: usize = 0;
        while i < n
            invariant
                i <= n,
                n == o.len(),
                o == orders@,
                cancels_wf(o),
                ids@ =~= cancel_ids_spec(o.take(i as int)),
                amts@ =~= cancel_amts_spec(o.take(i as int)),
            decreases n - i,
        {
            let (tick, amount) = (orders[i].0, orders[i].1);
            let id: u32 = match tick {
                Tick::Exact(e) => e,
                Tick::Delta(_) => {
                    proof {
                        assert(o[i as int].0 is Exact);
                        assert(false);
                    }
                    0
                },
            };
            ids.push(id);
            amts.push(amount);
            proof {
                assert(o.take(i as int + 1).drop_last() =~= o.take(i as int));
                assert(cancel_ids_spec(o.take(i as int + 1)) =~= cancel_ids_spec(o.take(
                    i as int)).push(id));
                assert(cancel_amts_spec(o.take(i as int + 1)) =~= cancel_amts_spec(o.take(
                    i as int)).push(amount));
            }
            i = i + 1;
        }
        proof {
            assert(o.take(n as int) =~= o);
        }
        (ids, amts)
    }

    /// Translate an intent into a planned contract call, enforcing the
    /// rolling rate limit and the gas policy.  `Claim` and `CheckGas` have
    /// dedicated entry points and are not planned here.
    ///
    /// Returns `None` exactly when a make/move is refused by the rate limit.
    pub fn plan(&mut self, intent: &Execute, curid: u32, now: u64) -> (r: Option<PlannedTx>)
        requires
            old(self).wf(),
            now >= old(self).last_now,
            !(*intent is Claim),
            !(*intent is CheckGas),
            (match *intent {
                Execute::Make(to) => orders_sum_x(to@) < crate::wide::b128() && orders_sum_y(to@)
                    < crate::wide::b128() && ticks_resolvable(to@, curid),
                Execute::Move { from, to } => orders_sum_x(to@) < crate::wide::b128()
                    && orders_sum_y(to@) < crate::wide::b128() && ticks_resolvable(to@, curid)
                    && cancels_wf(from@),
                Execute::Cancel(orders) => cancels_wf(orders@),
                Execute::CancelNTake { orders, .. } => cancels_wf(orders@),
                _ => true,
            }),
        ensures
            final(self).wf(),
            final(self).last_now == now,
            final(self).consecutive_failures == old(self).consecutive_failures,
            final(self).config == old(self).config,
            r is None ==> intent.is_make_or_move() && stamps_geq(old(self).sent_ts@, now - 299)
                >= old(self).config.tx_limit_5min && final(self).history@ == old(self).history@,
            r is Some ==> final(self).history@ == old(self).history@.push((
                now,
                intent.is_make_or_move(),
            )),
            // Every bin a make or move touches is recorded for the next fee
            // claim (even when the rate limit then refuses the submission);
            // no other intent changes the set.
            (match *intent {
                Execute::Make(to) => forall|v: u32|
                    ids_has(final(self).bins_touched@, v) == (ids_has(
                        old(self).bins_touched@,
                        v,
                    ) || ids_has(make_ids_spec(to@, curid), v)),
                Execute::Move { to, .. } => forall|v: u32|
                    ids_has(final(self).bins_touched@, v) == (ids_has(
                        old(self).bins_touched@,
                        v,
                    ) || ids_has(make_ids_spec(to@, curid), v)),
                _ => final(self).bins_touched == old(self).bins_touched,
            }),
            intent.is_make_or_move() ==> (r is Some) == (stamps_geq(old(self).sent_ts@, now - 299)
                < old(self).config.tx_limit_5min),
            (match *intent {
                Execute::Make(to) => r matches Some(tx) ==> tx == (PlannedTx {
                    call: PlannedCall::MakeCall {
                        curid,
                        amount_x: orders_sum_x(to@) as u128,
                        amount_y: orders_sum_y(to@) as u128,
                        bin_ids: tx.call->MakeCall_bin_ids,
                        distribution_x: tx.call->MakeCall_distribution_x,
                        distribution_y: tx.call->MakeCall_distribution_y,
                    },
                    gas_limit: old(self).config.gas_constant,
                    taker_gas: false,
                }) && tx.call->MakeCall_bin_ids@ == make_ids_spec(to@, curid)
                    && tx.call->MakeCall_distribution_x@ == dist_x_spec(to@, orders_sum_x(to@))
                    && tx.call->MakeCall_distribution_y@ == dist_y_spec(to@, orders_sum_y(to@)),
                Execute::Move { from, to } => r matches Some(tx) ==> (tx.call matches
                    PlannedCall::MoveCall {
                    curid: c2,
                    amount_x,
                    amount_y,
                    ids_in,
                    distribution_x,
                    distribution_y,
                    ids_out,
                    amounts,
                } && c2 == curid && amount_x == orders_sum_x(to@) && amount_y == orders_sum_y(to@)
                    && ids_in@ == make_ids_spec(to@, curid) && distribution_x@ == dist_x_spec(
                    to@,
                    orders_sum_x(to@),
                ) && distribution_y@ == dist_y_spec(to@, orders_sum_y(to@)) && ids_out@
                    == cancel_ids_spec(from@) && amounts@ == cancel_amts_spec(from@)
                    && tx.gas_limit == old(self).config.gas_constant && !tx.taker_gas),
                Execute::Cancel(orders) => r matches Some(tx) ==> (tx.call matches
                    PlannedCall::CancelCall { ids, amounts } && ids@ == cancel_ids_spec(orders@)
                    && amounts@ == cancel_amts_spec(orders@) && tx.gas_limit == old(
                    self,
                ).config.gas_constant && !tx.taker_gas),
                Execute::Take { amt_in, amt_out, swap_for_y } => r matches Some(tx) ==> tx == (
                PlannedTx {
                    call: PlannedCall::TakeCall {
                        curid,
                        amount_x: if swap_for_y {
                            amt_in
                        } else {
                            amt_out
                        },
                        amount_y: if swap_for_y {
                            amt_out
                        } else {
                            amt_in
                        },
                        swap_for_y,
                    },
                    gas_limit: old(self).config.gas_constant,
                    taker_gas: true,
                }),
                Execute::CancelNTake { amt_in, amt_out, swap_for_y, orders } => r matches Some(
                    tx,
                ) ==> (tx.call matches PlannedCall::CancelNTakeCall {
                    curid: c2,
                    amount_x,
                    amount_y,
                    swap_for_y: s2,
                    ids,
                    amounts,
                } && c2 == curid && s2 == swap_for_y && amount_x == if swap_for_y {
                    amt_in
                } else {
                    amt_out
                } && amount_y == if swap_for_y {
                    amt_out
                } else {
                    amt_in
                } && ids@ == cancel_ids_spec(orders@) && amounts@ == cancel_amts_spec(orders@)
                    && tx.gas_limit == old(self).config.gas_constant && tx.taker_gas),
                _ => true,
            }),
    {
        let gas_limit = self.config.gas_constant;
        match intent {
            Execute::Make(to) => {
                let (ax, ay, ids, dx, dy) = self.encode_maker(to, curid);
                if !self.submit_gate(true, now) {
                    return None;
                }
                Some(PlannedTx {
                    call: PlannedCall::MakeCall {
                        curid,
                        amount_x: ax,
                        amount_y: ay,
                        bin_ids: ids,
                        distribution_x: dx,
                        distribution_y: dy,
                    },
                    gas_limit,
                    taker_gas: false,
                })
            },
            Execute::Move { from, to } => {
                let (ax, ay, ids_in, dx, dy) = self.encode_maker(to, curid);
                let (ids_out, amounts) = self.encode_cancels(from);
                if !self.submit_gate(true, now) {
                    return None;
                }
                Some(PlannedTx {
                    call: PlannedCall::MoveCall {
                        curid,
                        amount_x: ax,
                        amount_y: ay,
                        ids_in,
                        distribution_x: dx,
                        distribution_y: dy,
                        ids_out,
                        amounts,
                    },
                    gas_limit,
                    taker_gas: false,
                })
            },
            Execute::Cancel(orders) => {
                let (ids, amounts) = self.encode_cancels(orders);
                let ok = self.submit_gate(false, now);
                proof {
                    assert(ok);
                }
                Some(PlannedTx {
                    call: PlannedCall::CancelCall { ids, amounts },
                    gas_limit,
                    taker_gas: false,
                })
            },
            Execute::Take { amt_in, amt_out, swap_for_y } => {
                let ok = self.submit_gate(false, now);
                proof {
                    assert(ok);
                }
                let (amount_x, amount_y) = if *swap_for_y {
                    (*amt_in, *amt_out)
                } else {
                    (*amt_out, *amt_in)
                };
                Some(PlannedTx {
                    call: PlannedCall::TakeCall {
                        curid,
                        amount_x,
                        amount_y,
                        swap_for_y: *swap_for_y,
                    },
                    gas_limit,
                    taker_gas: true,
                })
            },
            Execute::CancelNTake { amt_in, amt_out, swap_for_y, orders } => {
                let (ids, amounts) = self.encode_cancels(orders);
                let ok = self.submit_gate(false, now);
                proof {
                    assert(ok);
                }
                let (amount_x, amount_y) = if *swap_for_y {
                    (*amt_in, *amt_out)
                } else {
                    (*amt_out, *amt_in)
                };
                Some(PlannedTx {
                    call: PlannedCall::CancelNTakeCall {
                        curid,
                        amount_x,
                        amount_y,
                        swap_for_y: *swap_for_y,
                        ids,
                        amounts,
                    },
                    gas_limit,
                    taker_gas: true,
                })
            },
            Execute::Claim => {
                proof {
                    assert(false);
                }
                None
            },
            Execute::CheckGas => {
                proof {
                    assert(false);
                }
                None
            },
        }
    }

    /// Run-time check of [`Executor::plan`]'s domain, for callers outside
    /// the verifier: the intent is a plannable kind, its maker totals fit
    /// the word size, its ticks resolve to representable bin ids, and its
    /// cancellations carry exact ticks with live, non-sentinel amounts.
    pub fn check_plannable(intent: &Execute, curid: u32) -> (r: bool)
        ensures
            r == (match *intent {
                Execute::Make(to) => orders_sum_x(to@) < crate::wide::b128() && orders_sum_y(to@)
                    < crate::wide::b128() && ticks_resolvable(to@, curid),
                Execute::Move { from, to } => orders_sum_x(to@) < crate::wide::b128()
                    && orders_sum_y(to@) < crate::wide::b128() && ticks_resolvable(to@, curid)
                    && cancels_wf(from@),
                Execute::Cancel(orders) => cancels_wf(orders@),
                Execute::CancelNTake { orders, .. } => cancels_wf(orders@),
                Execute::Take { .. } => true,
                Execute::Claim => false,
                Execute::CheckGas => false,
            }),
    {
        match intent {
            Execute::Make(to) => Self::check_maker_orders(to, curid),
            Execute::Move { from, to } => Self::check_maker_orders(to, curid)
                && Self::check_cancel_orders(from),
            Execute::Cancel(orders) => Self::check_cancel_orders(orders),
            Execute::CancelNTake { orders, .. } => Self::check_cancel_orders(orders),
            Execute::Take { .. } => true,
            Execute::Claim => false,
            Execute::CheckGas => false,
        }
    }

    fn check_maker_orders(to: &Vec<(Tick, u128, u128)>, curid: u32) -> (r: bool)
        ensures
            r == (orders_sum_x(to@) < crate::wide::b128() && orders_sum_y(to@)
                < crate::wide::b128() && ticks_resolvable(to@, curid)),
    {
        let n = to.len();
        let mut i: usize = 0;
        let mut sx: u128 = 0;
        let mut sy: u128 = 0;
        while i < n
            invariant
                i <= n,
                n == to@.len(),
                sx == orders_sum_x(to@.take(i as int)),
                sy == orders_sum_y(to@.take(i as int)),
                forall|j: int|
                    0 <= j < i ==> 0 <= resolve_tick_spec(#[trigger] to@[j].0, curid)
                        < 0x1_0000_0000,
            decreases n - i,
        {
            let (tick, x, y) = (to[i].0, to[i].1, to[i].2);
            if x > u128::MAX - sx || y > u128::MAX - sy {
                proof {
                    lemma_orders_prefix(to@, i as int);
                }
                return false;
            }
            match tick {
                Tick::Delta(d) => {
                    let t: i64 = (curid as i64) + (d as i64);
                    if t < 0 || t > (u32::MAX as i64) {
                        proof {
                            assert(!ticks_resolvable(to@, curid)) by {
                                if ticks_resolvable(to@, curid) {
                                    assert(0 <= resolve_tick_spec(to@[i as int].0, curid)
                                        < 0x1_0000_0000);
                                }
                            }
                        }
                        return false;
                    }
                },
                Tick::Exact(_) => {},
            }
            proof {
                assert(to@.take(i as int + 1).drop_last() =~= to@.take(i as int));
            }
            sx = sx + x;
            sy = sy + y;
            i = i + 1;
        }
        proof {
            assert(to@.take(n as int) =~= to@);
        }
        true
    }

    fn check_cancel_orders(orders: &Vec<(Tick, u128)>) -> (r: bool)
        ensures
            r == cancels_wf(orders@),
    {
        let n = orders.len();
        let mut i: usize = 0;
        while i < n
            invariant
                i <= n,
                n == orders@.len(),
                forall|j: int|
                    0 <= j < i ==> (#[trigger] orders@[j]).0 is Exact && orders@[j].1 != 0
                        && orders@[j].1 != u128::MAX,
            decreases n - i,
        {
            let (tick, amount) = (orders[i].0, orders[i].1);
            let ok = match tick {
                Tick::Exact(_) => amount != 0 && amount != u128::MAX,
                Tick::Delta(_) => false,
            };
            if !ok {
                proof {
                    assert(!cancels_wf(orders@)) by {
                        if cancels_wf(orders@) {
                            assert((orders@[i as int]).0 is Exact && orders@[i as int].1 != 0
                                && orders@[i as int].1 != u128::MAX);
                        }
                    }
                }
                return false;
            }
            i = i + 1;
        }
        true
    }

    /// The bins to ask pending fees for: every bin touched since the last
    /// claim, sorted and unique.
    pub fn claim_candidates(&self) -> (r: Vec<u32>)
        ensures
            r@ == self.bins_touched@,
    {
        let mut out: Vec<u32> = Vec::new();
        let n = self.bins_touched.len();
        let mut i: usize = 0;
        while i < n
            invariant
                i <= n,
                n == self.bins_touched@.len(),
                out@ =~= self.bins_touched@.take(i as int),
            decreases n - i,
        {
            out.push(self.bins_touched[i]);
            proof {
                assert(self.bins_touched@.take(i as int + 1).drop_last()
                    =~= self.bins_touched@.take(i as int));
            }
            i = i + 1;
        }
        proof {
            assert(self.bins_touched@.take(n as int) =~= self.bins_touched@);
        }
        out
    }

    /// Keep the candidate bins that still hold liquidity tokens on chain.
    pub fn keep_owned(ids: &Vec<u32>, tokens: &Vec<u128>) -> (r: Vec<u32>)
        requires
            ids@.len() == tokens@.len(),
        ensures
            r@ == owned_ids_spec(ids@, tokens@),
    {
        let n = ids.len();
        let mut out: Vec<u32> = Vec::new();
        let mut i: usize = 0;
        while i < n
            invariant
                i <= n,
                n == ids@.len(),
                ids@.len() == tokens@.len(),
                out@ =~= owned_ids_spec(ids@.take(i as int), tokens@.take(i as int)),
            decreases n - i,
        {
            proof {
                assert(ids@.take(i as int + 1).drop_last() =~= ids@.take(i as int));
                assert(tokens@.take(i as int + 1).drop_last() =~= tokens@.take(i as int));
            }
            if tokens[i] != 0 {
                out.push(ids[i]);
            }
            i = i + 1;
        }
        proof {
            assert(ids@.take(n as int) =~= ids@);
            assert(tokens@.take(n as int) =~= tokens@);
        }
        out
    }

    /// Pending fees are worth a claim only above the dust thresholds.
    pub fn should_claim(&self, total_x: u128, total_y: u128) -> (r: bool)
        ensures
            r == !(total_x < self.config.token_x_dust && total_y < self.config.token_y_dust),
    {
        !(total_x < self.config.token_x_dust && total_y < self.config.token_y_dust)
    }

    /// Forget the touched bins once a claim has been submitted.
    pub fn note_claimed(&mut self)
        requires
            old(self).wf(),
        ensures
            final(self).wf(),
            *final(self) == (Executor { bins_touched: final(self).bins_touched, ..*old(self) }),
            final(self).bins_touched@.len() == 0,
    {
        self.bins_touched = Vec::new();
    }

    /// How much wrapped native to move when the gas balance runs low: twice
    /// the floor, or nothing while the balance is healthy.
    pub fn gas_refill(&self, gas_balance: u128) -> (r: Option<u128>)
        requires
            self.config.min_gas <= u128::MAX / 2,
        ensures
            r == if gas_balance < self.config.min_gas {
                Some((2 * self.config.min_gas) as u128)
            } else {
                None::<u128>
            },
    {
        if gas_balance < self.config.min_gas {
            Some(2 * self.config.min_gas)
        } else {
            None
        }
    }

    /// Whether the refill can be unwrapped from the wrapped-native balance;
    /// otherwise it is pulled from the executor contract.
    pub fn refill_from_wrapped(weth_balance: u128, to_refill: u128) -> (r: bool)
        ensures
            r == (weth_balance >= to_refill),
    {
        weth_balance >= to_refill
    }

    /// The gas price of a planned transaction, from the chain's current gas
    /// price: taker calls pay the configured percent multiple of it, every
    /// other broadcasting call pays it unchanged.
    pub fn gas_price_for(&self, current_gas_price: u128, taker_gas: bool) -> (r: U256)
        ensures
            taker_gas ==> r.val() == (current_gas_price * self.config.take_gas_price_scaling)
                / 100,
            !taker_gas ==> r.val() == current_gas_price,
    {
        if taker_gas {
            crate::wide::mul_div_u128(
                current_gas_price,
                self.config.take_gas_price_scaling as u128,
                100,
            )
        } else {
            U256::from_u128(current_gas_price)
        }
    }

    /// Account for a mined receipt.  Only a successful transaction resets
    /// the failure streak; after more than twenty consecutive failures the
    /// caller must terminate.
    pub fn on_receipt(&mut self, success: bool, block: u64) -> (r: ReceiptOutcome)
        requires
            old(self).wf(),
            old(self).consecutive_failures < u32::MAX,
        ensures
            final(self).wf(),
            *final(self) == (Executor {
                consecutive_failures: final(self).consecutive_failures,
                ..*old(self)
            }),
            success ==> final(self).consecutive_failures == 0 && r == ReceiptOutcome::Mined(
                block,
            ),
            !success ==> final(self).consecutive_failures == old(self).consecutive_failures + 1
                && r == if old(self).consecutive_failures + 1 > 20 {
                ReceiptOutcome::FatalFailure
            } else {
                ReceiptOutcome::Failed
            },
    {
        if success {
            self.consecutive_failures = 0;
            ReceiptOutcome::Mined(block)
        } else {
            self.consecutive_failures = self.consecutive_failures + 1;
            if self.consecutive_failures > 20 {
                ReceiptOutcome::FatalFailure
            } else {
                ReceiptOutcome::Failed
            }
        }
    }
}

/// The chunks laid end to end.
pub open spec fn concat_chunks(cs: Seq<Seq<u32>>) -> Seq<u32>
    decreases cs.len(),
{
    if cs.len() == 0 {
        Seq::empty()
    } else {
        concat_chunks(cs.drop_last()) + cs.last()
    }
}

/// Split a list of bin ids into batches of at most fifty, the size of one
/// view-call to the custody contract.
pub fn chunk_ids(ids: &Vec<u32>) -> (r: Vec<Vec<u32>>)
    ensures
        concat_chunks(r@.map(|i: int, v: Vec<u32>| v@)) == ids@,
        forall|i: int| 0 <= i < r@.len() ==> 0 < (#[trigger] r@[i])@.len() <= 50,
{
    let mut out: Vec<Vec<u32>> = Vec::new();
    let n = ids.len();
    let mut i: usize = 0;
    proof {
        assert(out@.map(|k: int, v: Vec<u32>| v@).len() == 0);
        assert(ids@.take(0) =~= Seq::<u32>::empty());
    }
    while i < n
        invariant
            i <= n,
            n == ids@.len(),
            concat_chunks(out@.map(|k: int, v: Vec<u32>| v@)) =~= ids@.take(i as int),
            forall|k: int| 0 <= k < out@.len() ==> 0 < (#[trigger] out@[k])@.len() <= 50,
        decreases n - i,
    {
        let ghost out0 = out@;
        let start = i;
        let end = if n - i <= 50 {
            n
        } else {
            i + 50
        };
        let mut chunk: Vec<u32> = Vec::new();
        while i < end
            invariant
                start <= i <= end <= n,
                n == ids@.len(),
                end - start <= 50,
                chunk@ =~= ids@.subrange(start as int, i as int),
            decreases end - i,
        {
            chunk.push(ids[i]);
            proof {
                assert(ids@.subrange(start as int, i as int + 1) =~= ids@.subrange(
                    start as int, i as int).push(ids@[i as int]));
            }
            i = i + 1;
        }
        out.push(chunk);
        proof {
            let f = |k: int, v: Vec<u32>| v@;
            assert(out@.map(f) =~= out0.map(f).push(chunk@));
            assert(out@.map(f).drop_last() =~= out0.map(f));
            assert(concat_chunks(out@.map(f)) =~= concat_chunks(out0.map(f)) + chunk@);
            assert(ids@.take(start as int) + ids@.subrange(start as int, i as int) =~= ids@.take(
                i as int));
        }
    }
    proof {
        assert(ids@.take(n as int) =~= ids@);
    }
    out
}

/// The candidate ids whose on-chain token balance is non-zero.
pub open spec fn owned_ids_spec(ids: Seq<u32>, tokens: Seq<u128>) -> Seq<u32>
    decreases ids.len(),
{
    if ids.len() == 0 || tokens.len() == 0 {
        Seq::empty()
    } else {
        owned_ids_spec(ids.drop_last(), tokens.drop_last()) + if tokens.last() != 0 {
            seq![ids.last()]
        } else {
            Seq::empty()
        }
    }
}

} // verus!
