//! End-to-end scenarios through the decision engine.

use quoter::decide::Step;
use quoter::executor::{Execute, Tick};
use quoter::portfolio::{Bin, DexView, Portfolio, PortfolioConfig};

const NEUTRAL: u32 = 0x80_0000;
const WAD: u128 = 1_000_000_000_000_000_000;

fn test_config() -> PortfolioConfig {
    PortfolioConfig {
        token_x_delta: None,
        token_y_delta: None,
        token_x_dust: 10,
        token_y_dust: 10,
        token_x_reserve_ppm: 0,
        token_y_reserve_ppm: 0,
        taker_profit_bps: 20,
        maker_loss_bps: 10,
        tx_limit_5min: 10,
        max_skew_ppm: 600_000,
        taker_scaling_factor_ppm: 600_000,
        reduce_only: false,
        pause: false,
        min_gas: 1_000,
        px_skew_factor_ppm: 0,
        portfolio_skew_factor_ppm: 1_000_000,
        px_scaling_factor_ppm: 1_000_000,
        rebalance_interval: 60,
        take_gas_price_scaling: 150,
        gas_constant: 1_000_000,
    }
}

fn test_portfolio(config: PortfolioConfig, now: u64) -> Portfolio {
    Portfolio::new(1_000_000, 1_000_000, 18, 18, config, 10, now)
}

fn in_band_dex() -> DexView {
    DexView {
        active_id: NEUTRAL,
        active_x: 500,
        active_y: 300,
        // 1 bp inside the band on both sides of a 100.00 / 100.10 reference.
        cur_bid: 99_990_000_000_000_000_000,
        cur_ask: 100_110_000_000_000_000_000,
        bin_step: 10,
        last_block: 1,
    }
}

fn quiet_timers(p: &mut Portfolio, now: u64) {
    p.last_fee_claim = now;
    p.last_gas_check = now;
    p.last_rebalance = now;
}

#[test]
fn in_band_no_position_makes_active_fit() {
    let now: u64 = 10_000;
    let mut p = test_portfolio(test_config(), now);
    quiet_timers(&mut p, now);
    let dex = in_band_dex();
    let (step, id) = p.on_state(100 * WAD, 100 * WAD + WAD / 10, &dex, now);
    assert_eq!(id, NEUTRAL);
    // Budgets are 1_000_000 on both sides; the bin ratio 500:300 fits as
    // (1_000_000, 600_000).
    let expected = vec![(Tick::Exact(NEUTRAL), 1_000_000u128, 600_000u128)];
    match step {
        Step::Done(Some(Execute::Make(orders))) => assert_eq!(orders, expected),
        other => panic!("expected a make, got {:?}", other),
    }
}

#[test]
fn in_band_with_position_waives_buffer() {
    let now: u64 = 10_000;
    let mut p = test_portfolio(test_config(), now);
    quiet_timers(&mut p, now);
    assert!(p.replace_positions(vec![Bin { id: NEUTRAL, x: 100, y: 60, tokens: 50 }]));
    let dex = in_band_dex();
    let (step, id) = p.on_state(100 * WAD, 100 * WAD + WAD / 10, &dex, now);
    assert_eq!(id, NEUTRAL);
    match step {
        Step::Done(Some(Execute::Make(orders))) => {
            assert_eq!(orders, vec![(Tick::Exact(NEUTRAL), 999_998u128, 599_998u128)]);
        },
        other => panic!("expected a growing make, got {:?}", other),
    }
}

#[test]
fn dex_underpriced_takes_with_cancel() {
    let now: u64 = 10_000;
    let mut p = test_portfolio(test_config(), now);
    quiet_timers(&mut p, now);
    assert!(p.replace_positions(vec![Bin { id: NEUTRAL, x: 100, y: 60, tokens: 50 }]));
    let dex = DexView {
        active_id: NEUTRAL,
        active_x: 500_000,
        active_y: 300_000,
        cur_bid: 99_400_000_000_000_000_000,
        cur_ask: 99_500_000_000_000_000_000,
        bin_step: 10,
        last_block: 1,
    };
    let (step, id) = p.on_state(100 * WAD, 100 * WAD + WAD / 10, &dex, now);
    assert_eq!(id, NEUTRAL);
    let (amt_out, swap_for_y) = match step {
        Step::NeedTake { amt_out, swap_for_y } => (amt_out, swap_for_y),
        other => panic!("expected a taker request, got {:?}", other),
    };
    assert!(!swap_for_y);
    assert!(amt_out > 10);
    // Complete the intent with a pool quote for the input side.
    let intent = p.finish_take(amt_out, swap_for_y, 424_242);
    match intent {
        Execute::CancelNTake { amt_in, amt_out: accepted, swap_for_y, orders } => {
            assert_eq!(amt_in, 424_242);
            // The accepted output is discounted by twice the taker edge:
            // 2 * 20 bps = 40 bps.
            assert_eq!(accepted, amt_out - amt_out * 40 / 10_000);
            assert!(!swap_for_y);
            assert_eq!(orders, vec![(Tick::Exact(NEUTRAL), 50u128)]);
        },
        other => panic!("expected cancel-and-take, got {:?}", other),
    }
}

#[test]
fn dust_only_diff_is_no_op() {
    let now: u64 = 10_000;
    let mut p = test_portfolio(test_config(), now);
    quiet_timers(&mut p, now);
    assert!(p.replace_positions(vec![Bin { id: NEUTRAL, x: 100, y: 100, tokens: 5 }]));
    // One unit above the current position on both sides, dust threshold 10.
    let wanted = vec![(NEUTRAL, 101u128, 101u128)];
    let r = p.get_diff(&wanted, now);
    assert_eq!(r, None);
}

#[test]
fn periodic_fee_claim_fires_after_an_hour() {
    let start: u64 = 10_000;
    let mut p = test_portfolio(test_config(), start);
    quiet_timers(&mut p, start);
    assert!(p.replace_positions(vec![Bin { id: NEUTRAL, x: 100, y: 100, tokens: 5 }]));
    // Wanting exactly what is held produces no liquidity change.
    let wanted = vec![(NEUTRAL, 100u128, 100u128)];
    let later = start + 3_700;
    let r = p.get_diff(&wanted, later);
    assert_eq!(r, Some(Execute::Claim));
    assert_eq!(p.last_fee_claim, later);
    // With the claim done, the overdue gas check comes next, then quiet.
    let r2 = p.get_diff(&wanted, later);
    assert_eq!(r2, Some(Execute::CheckGas));
    let r3 = p.get_diff(&wanted, later);
    assert_eq!(r3, None);
}

#[test]
fn gas_check_fires_after_claim_is_quiet() {
    let start: u64 = 10_000;
    let mut p = test_portfolio(test_config(), start);
    quiet_timers(&mut p, start);
    let wanted: Vec<(u32, u128, u128)> = vec![];
    let later = start + 700;
    let r = p.get_diff(&wanted, later);
    assert_eq!(r, Some(Execute::CheckGas));
    assert_eq!(p.last_gas_check, later);
}

#[test]
fn pause_does_nothing() {
    let now: u64 = 10_000;
    let mut cfg = test_config();
    cfg.pause = true;
    let mut p = test_portfolio(cfg, now);
    quiet_timers(&mut p, now);
    let dex = in_band_dex();
    let r = p.on_state(100 * WAD, 100 * WAD + WAD / 10, &dex, now);
    assert_eq!(r, (Step::Done(None), 0));
}

#[test]
fn reduce_only_never_posts_liquidity() {
    let now: u64 = 10_000;
    let mut cfg = test_config();
    cfg.reduce_only = true;
    let mut p = test_portfolio(cfg, now);
    quiet_timers(&mut p, now);
    assert!(p.replace_positions(vec![Bin { id: NEUTRAL, x: 100, y: 60, tokens: 50 }]));
    let dex = in_band_dex();
    let (step, _) = p.on_state(100 * WAD, 100 * WAD + WAD / 10, &dex, now);
    match step {
        Step::Done(Some(Execute::Make(_))) | Step::Done(Some(Execute::Move { .. })) => {
            panic!("reduce-only must not post liquidity")
        },
        Step::Done(Some(Execute::Cancel(orders))) => {
            assert_eq!(orders, vec![(Tick::Exact(NEUTRAL), 50u128)]);
        },
        other => panic!("expected a cancel, got {:?}", other),
    }
}

#[test]
fn diff_is_idempotent_for_identical_inputs() {
    let now: u64 = 10_000;
    let mut p1 = test_portfolio(test_config(), now);
    quiet_timers(&mut p1, now);
    assert!(p1.replace_positions(vec![
        Bin { id: NEUTRAL - 1, x: 0, y: 500, tokens: 7 },
        Bin { id: NEUTRAL, x: 200, y: 90, tokens: 5 },
    ]));
    let mut p2 = p1.clone();
    let wanted = vec![(NEUTRAL, 400u128, 200u128), (NEUTRAL + 1, 300u128, 0u128)];
    let r1 = p1.get_diff(&wanted, now);
    let r2 = p2.get_diff(&wanted, now);
    assert_eq!(r1, r2);
    assert!(matches!(r1, Some(Execute::Move { .. })));
}

#[test]
fn one_sided_fit_adds_neighbour_bin() {
    let now: u64 = 10_000;
    let mut p = test_portfolio(test_config(), now);
    quiet_timers(&mut p, now);
    assert!(p.replace_positions(vec![Bin { id: NEUTRAL, x: 0, y: 1, tokens: 1 }]));
    // The active bin holds only y, so the fit is y-only and an ask-side bin
    // one step above the active bin is quoted with the remaining x budget.
    // Reference prices sit around the neutral-bin price of 1.0.
    let dex = DexView {
        active_id: NEUTRAL,
        active_x: 0,
        active_y: 300,
        cur_bid: 999_950_000_000_000_000,
        cur_ask: 1_000_050_000_000_000_000,
        bin_step: 10,
        last_block: 1,
    };
    let cex_bid: u128 = 999_960_000_000_000_000;
    let cex_ask: u128 = 1_000_040_000_000_000_000;
    let (step, _) = p.on_state(cex_bid, cex_ask, &dex, now);
    match step {
        Step::Done(Some(Execute::Make(orders))) => {
            assert_eq!(orders.len(), 2);
            assert_eq!(orders[0].0, Tick::Exact(NEUTRAL));
            assert_eq!(orders[0].1, 0);
            assert!(orders[0].2 > 10);
            assert_eq!(orders[1].0, Tick::Exact(NEUTRAL + 1));
            assert!(orders[1].1 > 10);
            assert_eq!(orders[1].2, 0);
        },
        other => panic!("expected a make onto two bins, got {:?}", other),
    }
}

#[test]
fn overdue_rebalance_sells_down_excess_x() {
    let now: u64 = 100_000;
    let mut p = Portfolio::new(4_000_000, 1_000_000, 18, 18, test_config(), 10, now);
    p.last_fee_claim = now;
    p.last_gas_check = now;
    // The rebalance interval is sixty minutes; the last one is older.
    p.last_rebalance = now - 3_601;
    // Out of band on the bid side, but short of both taker thresholds.
    let dex = DexView {
        active_id: NEUTRAL,
        active_x: 3_000_000,
        active_y: 2_000_000,
        cur_bid: 100_200_000_000_000_000_000,
        cur_ask: 100_300_000_000_000_000_000,
        bin_step: 10,
        last_block: 1,
    };
    let (step, _) = p.on_state(100 * WAD, 100 * WAD + WAD / 10, &dex, now);
    // Inventory is 80% token x against a 60% cap: sell value down to one
    // half of the portfolio, which is 1_500_000 y units above the holding.
    assert_eq!(step, Step::NeedTake { amt_out: 1_500_000, swap_for_y: true });
    assert_eq!(p.last_rebalance, now);
    // Without any position there is nothing to cancel: a plain take.
    let intent = p.finish_take(1_500_000, true, 999);
    assert_eq!(
        intent,
        Execute::Take { amt_in: 999, amt_out: 1_500_000 - 1_500_000 * 40 / 10_000, swap_for_y: true }
    );
}

#[test]
fn unsorted_positions_are_rejected() {
    let now: u64 = 10_000;
    let mut p = test_portfolio(test_config(), now);
    let unsorted = vec![
        Bin { id: NEUTRAL, x: 1, y: 1, tokens: 1 },
        Bin { id: NEUTRAL - 1, x: 1, y: 1, tokens: 1 },
    ];
    assert!(!p.replace_positions(unsorted));
    assert_eq!(p.positions.len(), 0);
}

#[test]
fn engine_domain_check_accepts_and_rejects() {
    let now: u64 = 10_000;
    let mut p = test_portfolio(test_config(), now);
    quiet_timers(&mut p, now);
    let dex = in_band_dex();
    assert!(p.check_on_state_ok(100 * WAD, 100 * WAD + WAD / 10, &dex));
    // A dead reference quote is outside the engine's domain.
    assert!(!p.check_on_state_ok(0, 100 * WAD, &dex));
    // So is a snapshot whose fee parameter disagrees with the portfolio.
    let mut other = dex;
    other.bin_step = 25;
    assert!(!p.check_on_state_ok(100 * WAD, 100 * WAD + WAD / 10, &other));
    // An equal-ratio fit would hit the unreachable branch of the
    // proportional fit, which the domain excludes.
    let mut even = dex;
    even.active_x = 400;
    even.active_y = 400;
    assert!(!p.check_on_state_ok(100 * WAD, 100 * WAD + WAD / 10, &even));
}
