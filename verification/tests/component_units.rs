//! Unit tests for the arithmetic, price, feed and sequencer components.

use quoter::cex::{BookFeed, CexData, ImplBookFeed, TradeWindow};
use quoter::executor::{Execute, Executor, PlannedCall, ReceiptOutcome, Tick};
use quoter::portfolio::{Portfolio, PortfolioConfig};
use quoter::price::price_from_id;
use quoter::wide::{mul_div_u128, mul_u128, U256};

const NEUTRAL: u32 = 0x80_0000;

fn test_config() -> PortfolioConfig {
    PortfolioConfig {
        token_x_delta: None,
        token_y_delta: None,
        token_x_dust: 10,
        token_y_dust: 10,
        token_x_reserve_ppm: 0,
        token_y_reserve_ppm: 0,
        taker_profit_bps: 20,
        maker_loss_bps: 10,
        tx_limit_5min: 10,
        max_skew_ppm: 600_000,
        taker_scaling_factor_ppm: 600_000,
        reduce_only: false,
        pause: false,
        min_gas: 1_000,
        px_skew_factor_ppm: 0,
        portfolio_skew_factor_ppm: 1_000_000,
        px_scaling_factor_ppm: 1_000_000,
        rebalance_interval: 60,
        take_gas_price_scaling: 150,
        gas_constant: 1_000_000,
    }
}

#[test]
fn wide_multiplication_is_exact() {
    let two64: u128 = 1 << 64;
    let r = mul_u128(two64, two64);
    assert_eq!(r, U256 { hi: 1, lo: 0 });
    let r2 = mul_u128(u128::MAX, u128::MAX);
    // (2^128 - 1)^2 = 2^256 - 2^129 + 1.
    assert_eq!(r2, U256 { hi: u128::MAX - 1, lo: 1 });
}

#[test]
fn wide_mul_div_floors() {
    let q = mul_div_u128(10, 20, 3);
    assert_eq!(q, U256 { hi: 0, lo: 66 });
    let q2 = mul_div_u128(u128::MAX, 2, 2);
    assert_eq!(q2, U256 { hi: 0, lo: u128::MAX });
}

#[test]
fn price_at_neutral_is_one() {
    let p = price_from_id(NEUTRAL, 10).unwrap();
    assert_eq!(p, U256 { hi: 1, lo: 0 });
}

#[test]
fn price_one_step_with_full_bin_doubles() {
    // bin_step = 10000 bps means each step doubles the price.
    let p = price_from_id(NEUTRAL + 1, 10000).unwrap();
    assert_eq!(p, U256 { hi: 2, lo: 0 });
    let down = price_from_id(NEUTRAL - 1, 10000).unwrap();
    assert_eq!(down, U256 { hi: 0, lo: 1 << 127 });
}

#[test]
fn price_is_strictly_monotonic_near_neutral() {
    let mut prev = price_from_id(NEUTRAL - 3, 25).unwrap();
    let mut id = NEUTRAL - 2;
    while id <= NEUTRAL + 3 {
        let cur = price_from_id(id, 25).unwrap();
        assert!(prev.lt(cur));
        prev = cur;
        id += 1;
    }
}

#[test]
fn conversion_round_trip_is_within_one_unit() {
    let px = U256 { hi: 3, lo: 500 };
    let amounts: [u128; 4] = [0, 1, 777, 123_456_789];
    for a in amounts {
        let v = Portfolio::x_in_terms_of_y(px, a).to_u128();
        let back = Portfolio::y_in_terms_of_x(px, v).to_u128();
        assert!(back <= a);
        assert!(a <= back + 1);
    }
}

#[test]
fn ratio_fit_saturates_one_budget() {
    let (x, y) = Portfolio::get_ratio(1000, 800, 50, 30);
    assert_eq!((x, y), (1000, 600));
    let (x0, y0) = Portfolio::get_ratio(1000, 800, 0, 30);
    assert_eq!((x0, y0), (0, 800));
    let (x1, y1) = Portfolio::get_ratio(1000, 800, 50, 0);
    assert_eq!((x1, y1), (1000, 0));
}

#[test]
fn vwap_window_retains_threshold_volume() {
    let mut w = TradeWindow::new(10);
    let v1 = w.push_trade(5, 100);
    assert_eq!(v1, 100);
    let v2 = w.push_trade(5, 110);
    assert_eq!(v2, 105);
    // 15 units exceed the threshold: the oldest trade is dropped.
    let v3 = w.push_trade(5, 120);
    assert_eq!(v3, 115);
    assert_eq!(w.current_volume, 10);
    assert_eq!(w.current_value, 5 * 110 + 5 * 120);
    assert_eq!(w.trades.len(), 2);
}

#[test]
fn vwap_window_keeps_an_oversized_single_trade() {
    let mut w = TradeWindow::new(10);
    let v = w.push_trade(50, 42);
    assert_eq!(v, 42);
    assert_eq!(w.trades.len(), 1);
    assert_eq!(w.current_volume, 50);
    // The next trade pushes the big one out.
    let v2 = w.push_trade(3, 60);
    assert_eq!(w.trades.len(), 1);
    assert_eq!(v2, 60);
}

#[test]
fn book_feed_emits_only_on_change() {
    let mut f = BookFeed::new();
    let first = f.on_book(100, 1, 101, 2);
    assert_eq!(
        first,
        Some(CexData { bid_px: 100, bid_sz: Some(1), ask_px: 101, ask_sz: Some(2) })
    );
    // Same prices, different sizes: suppressed.
    assert_eq!(f.on_book(100, 7, 101, 9), None);
    let third = f.on_book(100, 7, 102, 9);
    assert!(third.is_some());
}

#[test]
fn impl_feed_emits_on_first_pair_and_big_moves() {
    let mut f = ImplBookFeed::new();
    assert_eq!(f.on_book(3_000_000, 3_002_000), None);
    let first = f.on_trade(1_500_000).expect("first implied pair must be emitted");
    // 3.0 / 1.5 = 2.0 in wad terms.
    assert_eq!(first.bid_px, 2_000_000_000_000_000_000);
    assert_eq!(first.bid_sz, None);
    // A sub-basis-point wiggle is suppressed.
    assert_eq!(f.on_book(3_000_100, 3_002_100), None);
    // A one-percent move is emitted.
    let moved = f.on_book(3_030_000, 3_032_000);
    assert!(moved.is_some());
}

#[test]
fn rate_limit_refuses_the_eleventh_make() {
    let mut ex = Executor::new(test_config(), 0);
    let make = Execute::Make(vec![(Tick::Exact(NEUTRAL), 50u128, 50u128)]);
    let mut now: u64 = 0;
    for _ in 0..10 {
        now += 5;
        let planned = ex.plan(&make, NEUTRAL, now);
        assert!(planned.is_some());
    }
    // Eleven profitable intents inside a minute: the eleventh is refused.
    now += 5;
    assert!(ex.plan(&make, NEUTRAL, now).is_none());
    // Takers are still allowed through.
    let take = Execute::Take { amt_in: 5, amt_out: 7, swap_for_y: true };
    assert!(ex.plan(&take, NEUTRAL, now + 1).is_some());
    // Once the window has passed, makes flow again.
    assert!(ex.plan(&make, NEUTRAL, now + 400).is_some());
}

#[test]
fn make_encoding_scales_distributions() {
    let mut ex = Executor::new(test_config(), 0);
    let make = Execute::Make(vec![
        (Tick::Exact(5), 30u128, 0u128),
        (Tick::Delta(2), 10u128, 40u128),
    ]);
    let tx = ex.plan(&make, 100, 1).expect("first make is allowed");
    assert_eq!(tx.gas_limit, 1_000_000);
    assert!(!tx.taker_gas);
    match tx.call {
        PlannedCall::MakeCall { curid, amount_x, amount_y, bin_ids, distribution_x, distribution_y } => {
            assert_eq!(curid, 100);
            assert_eq!(amount_x, 40);
            assert_eq!(amount_y, 40);
            assert_eq!(bin_ids, vec![5u32, 102u32]);
            // 18-decimal weights: 30/40 and 10/40 of the x side.
            assert_eq!(
                distribution_x,
                vec![750_000_000_000_000_000u128, 250_000_000_000_000_000u128]
            );
            assert_eq!(distribution_y, vec![0u128, 1_000_000_000_000_000_000u128]);
        },
        other => panic!("expected a make call, got {:?}", other),
    }
    // Both touched bins are remembered for the next fee claim.
    assert_eq!(ex.claim_candidates(), vec![5u32, 102u32]);
}

#[test]
fn taker_wire_order_follows_swap_direction() {
    let mut ex = Executor::new(test_config(), 0);
    let take = Execute::Take { amt_in: 11, amt_out: 22, swap_for_y: true };
    let tx = ex.plan(&take, 100, 1).unwrap();
    assert!(tx.taker_gas);
    match tx.call {
        PlannedCall::TakeCall { amount_x, amount_y, swap_for_y, .. } => {
            assert_eq!((amount_x, amount_y), (11, 22));
            assert!(swap_for_y);
        },
        other => panic!("expected a take call, got {:?}", other),
    }
    let back = Execute::Take { amt_in: 11, amt_out: 22, swap_for_y: false };
    let tx2 = ex.plan(&back, 100, 2).unwrap();
    match tx2.call {
        PlannedCall::TakeCall { amount_x, amount_y, swap_for_y, .. } => {
            assert_eq!((amount_x, amount_y), (22, 11));
            assert!(!swap_for_y);
        },
        other => panic!("expected a take call, got {:?}", other),
    }
}

#[test]
fn claim_helpers_filter_dust_and_zero_tokens() {
    let ex = Executor::new(test_config(), 0);
    let ids = vec![1u32, 2, 3];
    let tokens = vec![0u128, 5, 0];
    assert_eq!(Executor::keep_owned(&ids, &tokens), vec![2u32]);
    assert!(!ex.should_claim(9, 9));
    assert!(ex.should_claim(10, 0));
    assert!(ex.should_claim(0, 10));
}

#[test]
fn gas_policy_tops_up_twice_the_floor() {
    let ex = Executor::new(test_config(), 0);
    assert_eq!(ex.gas_refill(999), Some(2_000));
    assert_eq!(ex.gas_refill(1_000), None);
    assert!(Executor::refill_from_wrapped(2_000, 2_000));
    assert!(!Executor::refill_from_wrapped(1_999, 2_000));
}

#[test]
fn receipt_failures_become_fatal_after_twenty() {
    let mut ex = Executor::new(test_config(), 0);
    assert_eq!(ex.on_receipt(true, 77), ReceiptOutcome::Mined(77));
    assert_eq!(ex.consecutive_failures, 0);
    for k in 1..=20u32 {
        assert_eq!(ex.on_receipt(false, 0), ReceiptOutcome::Failed);
        assert_eq!(ex.consecutive_failures, k);
    }
    assert_eq!(ex.on_receipt(false, 0), ReceiptOutcome::FatalFailure);
    // Only a mined success resets the streak.
    assert_eq!(ex.on_receipt(true, 78), ReceiptOutcome::Mined(78));
    assert_eq!(ex.consecutive_failures, 0);
}

#[test]
fn chain_position_is_pro_rata() {
    let b = quoter::portfolio::Bin::from_chain(NEUTRAL, 1_000, 600, 25, 100);
    assert_eq!(b, quoter::portfolio::Bin { id: NEUTRAL, x: 250, y: 150, tokens: 25 });
    // Rounds down and never exceeds the reserves.
    let c = quoter::portfolio::Bin::from_chain(NEUTRAL, 10, 10, 99, 100);
    assert_eq!((c.x, c.y), (9, 9));
}

#[test]
fn refresh_window_covers_ten_bins_each_side() {
    let ids = quoter::portfolio::refresh_window_ids(NEUTRAL);
    assert_eq!(ids.len(), 20);
    assert_eq!(ids[0], NEUTRAL - 10);
    assert_eq!(ids[19], NEUTRAL + 9);
}

#[test]
fn view_calls_batch_in_fifties() {
    let ids: Vec<u32> = (0..120u32).collect();
    let chunks = quoter::executor::chunk_ids(&ids);
    assert_eq!(chunks.len(), 3);
    assert_eq!(chunks[0].len(), 50);
    assert_eq!(chunks[1].len(), 50);
    assert_eq!(chunks[2].len(), 20);
    let flat: Vec<u32> = chunks.into_iter().flatten().collect();
    assert_eq!(flat, ids);
}

#[test]
fn gas_price_scales_for_takers_only() {
    let ex = Executor::new(test_config(), 0);
    // 150 percent of the current gas price on taker calls.
    let taker = ex.gas_price_for(20_000_000_000, true);
    assert_eq!(taker, U256 { hi: 0, lo: 30_000_000_000 });
    let plain = ex.gas_price_for(20_000_000_000, false);
    assert_eq!(plain, U256 { hi: 0, lo: 20_000_000_000 });
}

#[test]
fn plannable_check_matches_plan_domain() {
    let make = Execute::Make(vec![(Tick::Delta(-3), 5u128, 5u128)]);
    assert!(Executor::check_plannable(&make, 100));
    // A delta below zero is out of range.
    assert!(!Executor::check_plannable(&make, 2));
    // A cancel with a zero token amount is malformed.
    let cancel = Execute::Cancel(vec![(Tick::Exact(7), 0u128)]);
    assert!(!Executor::check_plannable(&cancel, 100));
    // A cancel addressed by delta is malformed.
    let cancel2 = Execute::Cancel(vec![(Tick::Delta(1), 5u128)]);
    assert!(!Executor::check_plannable(&cancel2, 100));
    let take = Execute::Take { amt_in: 1, amt_out: 2, swap_for_y: false };
    assert!(Executor::check_plannable(&take, 100));
}

#[test]
fn cancels_leave_touched_bins_alone() {
    let mut ex = Executor::new(test_config(), 0);
    let make = Execute::Make(vec![(Tick::Exact(9), 50u128, 0u128)]);
    assert!(ex.plan(&make, 100, 1).is_some());
    assert_eq!(ex.claim_candidates(), vec![9u32]);
    // A cancel does not record bins; a refused make still does.
    let cancel = Execute::Cancel(vec![(Tick::Exact(9), 50u128)]);
    assert!(ex.plan(&cancel, 100, 2).is_some());
    assert_eq!(ex.claim_candidates(), vec![9u32]);
}
