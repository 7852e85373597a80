//! Reference-feed aggregation: the rolling trade-VWAP window and the
//! change-triggered feed states.
//!
//! Prices are token y per whole token x, scaled by 10^18; a size of `None`
//! stands for "unknown", as with prices derived from a VWAP.

use vstd::prelude::*;
use crate::wide::{U256, U384, b128, mul_u128, div_384_by_256};

verus! {

/// One reference quote.
#[derive(Clone, Copy, Debug, PartialEq, Eq)]
pub struct CexData {
    pub bid_px: u128,
    pub bid_sz: Option<u128>,
    pub ask_px: u128,
    pub ask_sz: Option<u128>,
}

/// Sum of the retained trade quantities.
pub open spec fn window_volume(s: Seq<(u64, u64)>) -> int
    decreases s.len(),
{
    if s.len() == 0 {
        0
    } else {
        window_volume(s.drop_last()) + s.last().0
    }
}

/// Sum of quantity times price over the retained trades.
pub open spec fn window_value(s: Seq<(u64, u64)>) -> int
    decreases s.len(),
{
    if s.len() == 0 {
        0
    } else {
        window_value(s.drop_last()) + s.last().0 * s.last().1
    }
}

/// Drop trades from the front while the retained volume still exceeds the
/// threshold and more than one trade remains.
pub open spec fn window_trim(s: Seq<(u64, u64)>, threshold: u64) -> Seq<(u64, u64)>
    decreases s.len(),
{
    if window_volume(s) > threshold && s.len() > 1 {
        window_trim(s.drop_first(), threshold)
    } else {
        s
    }
}

/// A rolling volume-weighted-average-price window: the most recent trades
/// whose cumulative quantity stays at the threshold, always keeping at
/// least the latest trade.
pub struct TradeWindow {
    /// The volume to retain.
    pub threshold: u64,
    /// Retained `(quantity, price)` trades, oldest first.
    pub trades: Vec<(u64, u64)>,
    /// Maintained sum of the retained quantities.
    pub current_volume: u128,
    /// Maintained sum of quantity times price.
    pub current_value: u128,
}

impl TradeWindow {
    /// The window invariant: the maintained sums match the retained trades,
    /// the volume respects the threshold unless a single trade alone
    /// exceeds it, and no retained trade is empty.
    pub open spec fn wf(self) -> bool {
        &&& self.current_volume == window_volume(self.trades@)
        &&& self.current_value == window_value(self.trades@)
        &&& (window_volume(self.trades@) <= self.threshold || self.trades@.len() == 1)
        &&& forall|i: int| 0 <= i < self.trades@.len() ==> (#[trigger] self.trades@[i]).0 > 0
    }

    pub fn new(threshold: u64) -> (r: TradeWindow)
        ensures
            r.wf(),
            r.threshold == threshold,
            r.trades@.len() == 0,
    {
        TradeWindow { threshold, trades: Vec::new(), current_volume: 0, current_value: 0 }
    }

    /// Record one trade, trim the window back to the threshold, and return
    /// the volume-weighted average price of what remains.
    ///
    /// A zero-quantity print is no trade and is excluded: it would
    /// contribute nothing but could empty the average's denominator.  The
    /// accumulated value must also stay within 128 bits.
    pub fn push_trade(&mut self, qty: u64, price: u64) -> (r: u128)
        requires
            old(self).wf(),
            qty > 0,
            window_value(old(self).trades@.push((qty, price))) < 0x1_0000_0000_0000_0000_0000_0000_0000_0000,
        ensures
            final(self).wf(),
            final(self).threshold == old(self).threshold,
            final(self).trades@ == window_trim(
                old(self).trades@.push((qty, price)),
                old(self).threshold,
            ),
            final(self).trades@.len() > 0,
            r == window_value(final(self).trades@) / window_volume(final(self).trades@),
    {
        let ghost pushed = self.trades@.push((qty, price));
        proof {
            lemma_window_nonneg(self.trades@);
            assert(pushed.drop_last() =~= self.trades@);
            assert(self.current_volume + qty <= 0x2_0000_0000_0000_0000int) by {
                if self.trades@.len() == 1 {
                    assert(window_volume(self.trades@) == window_volume(
                        self.trades@.drop_last(),
                    ) + self.trades@.last().0);
                    assert(window_volume(self.trades@.drop_last()) == 0) by {
                        assert(self.trades@.drop_last().len() == 0);
                    }
                }
            }
            assert((qty as int) * (price as int) < b128()) by (nonlinear_arith)
                requires
                    qty < 0x1_0000_0000_0000_0000 && price < 0x1_0000_0000_0000_0000 && qty
                        >= 0 && price >= 0,
            ;
        }
        self.current_volume = self.current_volume + (qty as u128);
        self.current_value = self.current_value + (qty as u128) * (price as u128);
        self.trades.push((qty, price));
        proof {
            assert(self.trades@ =~= pushed);
            assert(window_trim(pushed, self.threshold) == window_trim(
                self.trades@,
                self.threshold,
            ));
        }
        let ghost target = window_trim(pushed, self.threshold);
        while self.current_volume > (self.threshold as u128) && self.trades.len() > 1
            invariant
                self.current_volume == window_volume(self.trades@),
                self.current_value == window_value(self.trades@),
                self.threshold == old(self).threshold,
                forall|i: int| 0 <= i < self.trades@.len() ==> (#[trigger] self.trades@[i]).0
                    > 0,
                self.trades@.len() >= 1,
                window_trim(self.trades@, self.threshold) == target,
                window_value(self.trades@) < b128(),
            decreases self.trades@.len(),
        {
            let ghost cur = self.trades@;
            let (q0, p0) = (self.trades[0].0, self.trades[0].1);
            proof {
                lemma_window_drop_first(cur);
                assert(cur[0] == (q0, p0));
                lemma_window_nonneg(cur.drop_first());
                assert((q0 as int) * (p0 as int) >= 0) by (nonlinear_arith)
                    requires
                        q0 >= 0 && p0 >= 0,
                ;
            }
            self.trades.remove(0);
            proof {
                assert(self.trades@ =~= cur.drop_first());
            }
            self.current_volume = self.current_volume - (q0 as u128);
            self.current_value = self.current_value - (q0 as u128) * (p0 as u128);
        }
        proof {
            assert(window_trim(self.trades@, self.threshold) =~= self.trades@);
            lemma_window_positive_volume(self.trades@);
        }
        self.current_value / self.current_volume
    }
}

/// The sums over a window are nonnegative.
proof fn lemma_window_nonneg(s: Seq<(u64, u64)>)
    ensures
        window_volume(s) >= 0,
        window_value(s) >= 0,
    decreases s.len(),
{
    if s.len() > 0 {
        lemma_window_nonneg(s.drop_last());
        assert(s.last().0 * s.last().1 >= 0) by (nonlinear_arith)
            requires
                s.last().0 >= 0 && s.last().1 >= 0,
        ;
    }
}

/// Dropping the oldest trade removes exactly its contribution.
proof fn lemma_window_drop_first(s: Seq<(u64, u64)>)
    requires
        s.len() > 0,
    ensures
        window_volume(s.drop_first()) == window_volume(s) - s[0].0,
        window_value(s.drop_first()) == window_value(s) - s[0].0 * s[0].1,
    decreases s.len(),
{
    if s.len() == 1 {
        assert(s.drop_first().len() == 0);
        assert(s.drop_last().len() == 0);
        assert(s.last() == s[0]);
        assert(window_volume(s.drop_first()) == 0);
        assert(window_volume(s.drop_last()) == 0);
        assert(window_value(s.drop_first()) == 0);
        assert(window_value(s.drop_last()) == 0);
    } else {
        let dl = s.drop_last();
        let df = s.drop_first();
        lemma_window_drop_first(dl);
        assert(df.drop_last() =~= dl.drop_first());
        assert(df.last() == s.last());
        assert(dl[0] == s[0]);
        assert(window_volume(df) == window_volume(df.drop_last()) + df.last().0);
        assert(window_volume(s) == window_volume(dl) + s.last().0);
        assert(window_value(df) == window_value(df.drop_last()) + df.last().0 * df.last().1);
        assert(window_value(s) == window_value(dl) + s.last().0 * s.last().1);
    }
}

/// A window of live trades has positive volume.
proof fn lemma_window_positive_volume(s: Seq<(u64, u64)>)
    requires
        s.len() > 0,
        forall|i: int| 0 <= i < s.len() ==> (#[trigger] s[i]).0 > 0,
    ensures
        window_volume(s) > 0,
    decreases s.len(),
{
    lemma_window_nonneg(s.drop_last());
    assert(s.last() == s[s.len() - 1]);
}

/// Change-triggered top-of-book feed state: a quote goes out only when the
/// best bid or ask price moved.
pub struct BookFeed {
    pub last: Option<(u128, u128)>,
}

impl BookFeed {
    pub fn new() -> (r: BookFeed)
        ensures
            r.last is None,
    {
        BookFeed { last: None }
    }

    /// Feed one book-ticker update; emits only on change of the price pair.
    pub fn on_book(&mut self, bid_px: u128, bid_sz: u128, ask_px: u128, ask_sz: u128) -> (r:
        Option<CexData>)
        ensures
            final(self).last == Some((bid_px, ask_px)),
            r == if old(self).last == Some((bid_px, ask_px)) {
                None::<CexData>
            } else {
                Some(
                    CexData {
                        bid_px,
                        bid_sz: Some(bid_sz),
                        ask_px,
                        ask_sz: Some(ask_sz),
                    },
                )
            },
    {
        let changed = match self.last {
            Some((b, a)) => !(b == bid_px && a == ask_px),
            None => true,
        };
        self.last = Some((bid_px, ask_px));
        if changed {
            Some(CexData { bid_px, bid_sz: Some(bid_sz), ask_px, ask_sz: Some(ask_sz) })
        } else {
            None
        }
    }
}

/// The implied price of one wad price over another, saturating at the word
/// size.
pub open spec fn implied_ratio_spec(num: int, den: int) -> int {
    let q = (num * 1_000_000_000_000_000_000) / den;
    if q < b128() {
        q
    } else {
        b128() - 1
    }
}

/// `num * 10^18 / den`, saturating at the word size.
pub fn implied_ratio(num: u128, den: u128) -> (r: u128)
    requires
        den > 0,
    ensures
        r == implied_ratio_spec(num as int, den as int),
{
    let prod = mul_u128(num, 1_000_000_000_000_000_000);
    let (q, rest) = div_384_by_256(U384::from_u256(prod), U256::from_u128(den));
    proof {
        vstd::arithmetic::div_mod::lemma_fundamental_div_mod_converse(
            prod.val(),
            den as int,
            q.val(),
            rest.val(),
        );
        crate::wide::lemma_u384_val_bounds(q);
    }
    if q.le384(u128::MAX) {
        q.w0
    } else {
        u128::MAX
    }
}

/// Synthetic cross-pair feed: the book ticker of one symbol divided by the
/// last trade print of a second.  Emits on first availability and then only
/// when either implied side moved by more than one basis point of the
/// implied bid.
pub struct ImplBookFeed {
    /// Latest book of the first symbol.
    pub book: Option<(u128, u128)>,
    /// Latest trade price of the second symbol.
    pub trade: Option<u128>,
    /// The last emitted implied pair.
    pub emitted: Option<(u128, u128)>,
}

impl ImplBookFeed {
    pub fn new() -> (r: ImplBookFeed)
        ensures
            r.book is None,
            r.trade is None,
            r.emitted is None,
    {
        ImplBookFeed { book: None, trade: None, emitted: None }
    }

    /// The implied pair, when both legs are known.
    pub open spec fn implied(self) -> Option<(int, int)> {
        match (self.book, self.trade) {
            (Some((b, a)), Some(t)) => {
                if t > 0 {
                    Some(
                        (
                            implied_ratio_spec(b as int, t as int),
                            implied_ratio_spec(a as int, t as int),
                        ),
                    )
                } else {
                    None
                }
            },
            _ => None,
        }
    }

    /// Whether a fresh implied pair must be emitted: on first availability,
    /// or when a side moved by more than a basis point of the current bid.
    pub open spec fn should_emit(self, cur_bid: int, cur_ask: int) -> bool {
        match self.emitted {
            None => true,
            Some((lb, la)) => {
                let db = if lb >= cur_bid {
                    lb - cur_bid
                } else {
                    cur_bid - lb
                };
                let da = if la >= cur_ask {
                    la - cur_ask
                } else {
                    cur_ask - la
                };
                db * 10000 > cur_bid || da * 10000 > cur_bid
            },
        }
    }

    fn emit_if_due(&mut self) -> (r: Option<CexData>)
        requires
            old(self).book is Some,
            old(self).trade is Some,
        ensures
            final(self).book == old(self).book,
            final(self).trade == old(self).trade,
            match old(self).implied() {
                Some((cb, ca)) => {
                    if old(self).should_emit(cb, ca) {
                        r == Some(
                            CexData {
                                bid_px: cb as u128,
                                bid_sz: None::<u128>,
                                ask_px: ca as u128,
                                ask_sz: None::<u128>,
                            },
                        ) && final(self).emitted == Some((cb as u128, ca as u128))
                    } else {
                        r is None && final(self).emitted == old(self).emitted
                    }
                },
                None => r is None && final(self).emitted == old(self).emitted,
            },
    {
        let (b, a) = match self.book {
            Some(p) => p,
            None => {
                proof {
                    assert(false);
                }
                (0, 0)
            },
        };
        let t = match self.trade {
            Some(t) => t,
            None => {
                proof {
                    assert(false);
                }
                0
            },
        };
        if t == 0 {
            return None;
        }
        let cur_bid = implied_ratio(b, t);
        let cur_ask = implied_ratio(a, t);
        let due = match self.emitted {
            None => true,
            Some((lb, la)) => {
                let db = if lb >= cur_bid {
                    lb - cur_bid
                } else {
                    cur_bid - lb
                };
                let da = if la >= cur_ask {
                    la - cur_ask
                } else {
                    cur_ask - la
                };
                crate::decide::lt_prod(cur_bid, 1, db, 10000) || crate::decide::lt_prod(
                    cur_bid,
                    1,
                    da,
                    10000,
                )
            },
        };
        if due {
            self.emitted = Some((cur_bid, cur_ask));
            Some(CexData { bid_px: cur_bid, bid_sz: None, ask_px: cur_ask, ask_sz: None })
        } else {
            None
        }
    }

    /// Feed a book-ticker update of the first symbol.  An unchanged book is
    /// suppressed outright; otherwise, once both legs are known, the implied
    /// pair goes out on first availability and then whenever a side moved by
    /// more than one basis point of the implied bid.
    pub fn on_book(&mut self, bid_px: u128, ask_px: u128) -> (r: Option<CexData>)
        ensures
            final(self).book == Some((bid_px, ask_px)),
            final(self).trade == old(self).trade,
            old(self).book == Some((bid_px, ask_px)) ==> r is None && *final(self) == *old(
                self,
            ),
            old(self).book != Some((bid_px, ask_px)) ==> ({
                let mid = ImplBookFeed { book: Some((bid_px, ask_px)), ..*old(self) };
                match mid.implied() {
                    Some((cb, ca)) => {
                        if mid.should_emit(cb, ca) {
                            r == Some(
                                CexData {
                                    bid_px: cb as u128,
                                    bid_sz: None::<u128>,
                                    ask_px: ca as u128,
                                    ask_sz: None::<u128>,
                                },
                            ) && final(self).emitted == Some((cb as u128, ca as u128))
                        } else {
                            r is None && final(self).emitted == old(self).emitted
                        }
                    },
                    None => r is None && final(self).emitted == old(self).emitted,
                }
            }),
    {
        // An unchanged book is suppressed before any recomputation.
        match self.book {
            Some((b, a)) => {
                if b == bid_px && a == ask_px {
                    return None;
                }
            },
            None => {},
        }
        self.book = Some((bid_px, ask_px));
        match self.trade {
            Some(_) => self.emit_if_due(),
            None => None,
        }
    }

    /// Feed a trade print of the second symbol.  Once both legs are known,
    /// the implied pair goes out on first availability and then whenever a
    /// side moved by more than one basis point of the implied bid.
    pub fn on_trade(&mut self, price: u128) -> (r: Option<CexData>)
        ensures
            final(self).trade == Some(price),
            final(self).book == old(self).book,
            ({
                let mid = ImplBookFeed { trade: Some(price), ..*old(self) };
                match mid.implied() {
                    Some((cb, ca)) => {
                        if mid.should_emit(cb, ca) {
                            r == Some(
                                CexData {
                                    bid_px: cb as u128,
                                    bid_sz: None::<u128>,
                                    ask_px: ca as u128,
                                    ask_sz: None::<u128>,
                                },
                            ) && final(self).emitted == Some((cb as u128, ca as u128))
                        } else {
                            r is None && final(self).emitted == old(self).emitted
                        }
                    },
                    None => r is None && final(self).emitted == old(self).emitted,
                }
            }),
    {
        self.trade = Some(price);
        match self.book {
            Some(_) => self.emit_if_due(),
            None => None,
        }
    }
}

/// Synthetic cross-pair feed over two trade-VWAP windows: emits the ratio
/// of the two averages whenever both windows hold at least one trade.
pub struct ImplTradeFeed {
    pub first: TradeWindow,
    pub second: TradeWindow,
}

impl ImplTradeFeed {
    pub open spec fn wf(self) -> bool {
        self.first.wf() && self.second.wf()
    }

    pub fn new(threshold1: u64, threshold2: u64) -> (r: ImplTradeFeed)
        ensures
            r.wf(),
            r.first.trades@.len() == 0,
            r.second.trades@.len() == 0,
    {
        ImplTradeFeed { first: TradeWindow::new(threshold1), second: TradeWindow::new(threshold2) }
    }

    /// Feed one trade of either symbol; emits once both windows are live.
    pub fn on_trade(&mut self, first_symbol: bool, qty: u64, price: u64) -> (r: Option<CexData>)
        requires
            old(self).wf(),
            qty > 0,
            first_symbol ==> window_value(old(self).first.trades@.push((qty, price))) < b128(),
            !first_symbol ==> window_value(old(self).second.trades@.push((qty, price)))
                < b128(),
        ensures
            final(self).wf(),
            // The fed trade lands in the named window, which is trimmed back
            // to its threshold; the other window is untouched.
            first_symbol ==> final(self).second == old(self).second
                && final(self).first.threshold == old(self).first.threshold
                && final(self).first.trades@ == window_trim(
                old(self).first.trades@.push((qty, price)),
                old(self).first.threshold,
            ),
            !first_symbol ==> final(self).first == old(self).first
                && final(self).second.threshold == old(self).second.threshold
                && final(self).second.trades@ == window_trim(
                old(self).second.trades@.push((qty, price)),
                old(self).second.threshold,
            ),
            (final(self).first.trades@.len() > 0 && final(self).second.trades@.len() > 0)
                == (r is Some),
            r matches Some(q) ==> q.bid_px == q.ask_px && q.bid_sz is None && q.ask_sz is None
                && ({
                let v1 = window_value(final(self).first.trades@) / window_volume(
                    final(self).first.trades@,
                );
                let v2 = window_value(final(self).second.trades@) / window_volume(
                    final(self).second.trades@,
                );
                v2 > 0 ==> q.bid_px == implied_ratio_spec(v1, v2)
            }),
    {
        if first_symbol {
            let _v = self.first.push_trade(qty, price);
        } else {
            let _v = self.second.push_trade(qty, price);
        }
        if self.first.trades.len() > 0 && self.second.trades.len() > 0 {
            proof {
                lemma_window_positive_volume(self.first.trades@);
                lemma_window_positive_volume(self.second.trades@);
            }
            let v1 = self.first.current_value / self.first.current_volume;
            let v2 = self.second.current_value / self.second.current_volume;
            let px = if v2 == 0 {
                0
            } else {
                implied_ratio(v1, v2)
            };
            Some(CexData { bid_px: px, bid_sz: None, ask_px: px, ask_sz: None })
        } else {
            None
        }
    }
}

} // verus!