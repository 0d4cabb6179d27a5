use funding_scanner::alerts::{Decision, COOLDOWN, FLIPFLOP_WINDOW, MUTE_DURATION};
use funding_scanner::backtest::{
    break_even_apr_pct, BacktestArgs, CliExitStrategy, CliTier, ExitReason, Side, Trade,
};
use funding_scanner::binary64::Binary64;
use funding_scanner::monitor::Monitor;
use funding_scanner::metrics::{share_of, trace};
use funding_scanner::stats::{compute_score, TrendDir};
use funding_scanner::sweep::compute_combo_result;
use funding_scanner::tier::Tier;

fn of(x: f64) -> Binary64 {
    Binary64 { bits: x.to_bits() }
}

fn num(x: Binary64) -> f64 {
    f64::from_bits(x.bits)
}

fn points(apr: f64, std_pct: f64, log: f64) -> f64 {
    num(compute_score(of(apr), of(0.0), of(std_pct), of(log), TrendDir::Flat))
}

#[test]
fn the_parts_of_the_score() {
    assert_eq!(points(0.0, 30.0, 0.0), 0.0);
    assert_eq!(points(249.0, 30.0, 0.0), 249.0 / 5.0);
    assert_eq!(points(250.0, 30.0, 0.0), 50.0);
    assert_eq!(points(-1000.0, 30.0, 0.0), 50.0);
    assert_eq!(points(0.0, 30.0, 1.5), 15.0);
    assert_eq!(points(0.0, 30.0, 2.0), 20.0);
    assert_eq!(points(0.0, 30.0, 7.0), 20.0);
    assert_eq!(points(0.0, 0.0, 0.0), 30.0);
    assert_eq!(points(0.0, 12.5, 0.0), 17.5);
    assert_eq!(points(0.0, 300.0, 0.0), 0.0);
    assert_eq!(points(250.0, 0.0, 2.0), 100.0);
    let with_trend = compute_score(of(0.0), of(4.0), of(30.0), of(0.0), TrendDir::Up);
    assert_eq!(num(with_trend), 10.0);
}

#[test]
fn better_readings_do_not_score_less() {
    let aprs = [0.0, 0.1, 33.3, 120.0, 249.9, 250.0, 777.0];
    let stds = [0.0, 0.3, 11.1, 29.9, 30.0, 64.0];
    let logs = [0.0, 0.1, 0.77, 1.99, 2.0, 3.5];
    for (i, a) in aprs.iter().enumerate() {
        for b in &aprs[i..] {
            for (k, s) in stds.iter().enumerate() {
                for t in &stds[k..] {
                    for (m, l) in logs.iter().enumerate() {
                        for n in &logs[m..] {
                            assert!(points(*a, *t, *l) <= points(-*b, *s, *n));
                        }
                    }
                }
            }
        }
    }
}

fn market_args() -> BacktestArgs {
    BacktestArgs {
        days: 30,
        capital: of(1000.0),
        max_positions: 3,
        min_tier: CliTier::Medium,
        hold_hours: 24,
        spread_bps: of(20.0),
        taker_fee_bps: of(4.5),
        maker_fee_bps: of(1.5),
        use_maker: false,
        slippage_bps: of(10.0),
        min_funding_apr: None,
        exit_strategy: CliExitStrategy::Std,
        hysteresis_entry_apr: of(200.0),
        hysteresis_exit_apr: of(50.0),
    }
}

#[test]
fn limit_orders_lower_the_break_even() {
    let market = market_args();
    let limit = BacktestArgs { use_maker: true, ..market };
    assert_eq!(num(break_even_apr_pct(&market)), 49.0 * 87.6 / 24.0);
    assert_eq!(num(break_even_apr_pct(&limit)), 26.0 * 87.6 / 24.0);
    let same = BacktestArgs { maker_fee_bps: of(24.5), ..limit };
    assert_eq!(num(break_even_apr_pct(&same)), num(break_even_apr_pct(&market)));
}

#[test]
fn costs_do_not_improve_a_result() {
    for gross in [-3.5, -0.0, 0.0, 1e-300, 0.1, 7.25, 1e300] {
        for cost in [0.0, 1e-12, 0.245, 1e300] {
            let net = of(gross).minus(of(cost)).minus(of(cost));
            assert!(net.is_at_most(of(gross)));
            assert_eq!(num(net), gross - cost - cost);
        }
    }
}

#[test]
fn silence_lasts_whatever_happens_meanwhile() {
    let mut monitor = Monitor::new();
    let a = "A".to_string();
    monitor.state.mark_sent(&a, 10);
    monitor.state.record_change(&a, 20);
    assert!(monitor.look(&Vec::new(), 30).is_none());
    assert_eq!(monitor.look(&Vec::new(), 40).map(|e| e.len()), Some(0));
    assert!(!monitor.state.check_and_consume(&a, 9 + COOLDOWN));
    assert!(monitor.state.check_and_consume(&a, 10 + COOLDOWN));

    let b = "B".to_string();
    monitor.state.record_change(&b, 0);
    monitor.state.record_change(&b, 1);
    monitor.state.record_change(&b, FLIPFLOP_WINDOW - 1);
    let found = FLIPFLOP_WINDOW - 1;
    assert!(!monitor.state.check_and_consume(&b, found));
    monitor.state.mark_sent(&b, found + 1);
    monitor.state.record_change(&b, found + FLIPFLOP_WINDOW * 3);
    assert!(!monitor.state.check_and_consume(&b, found + 2));
    assert_eq!(monitor.state.decide(&b, found + MUTE_DURATION - 1), Decision::Muted);
    assert_eq!(monitor.state.decide(&b, found + MUTE_DURATION), Decision::Send);
}

fn trade(exit_time_sec: i64, net: f64) -> Trade {
    Trade {
        asset: 0,
        entry_tier: Tier::Weak,
        side: Side::Short,
        size_usd: of(100.0),
        entry_time_sec: exit_time_sec - 3600,
        exit_time_sec,
        gross_funding_pnl: of(net + 0.49),
        entry_cost: of(0.245),
        exit_cost: of(0.245),
        net_pnl: of(net),
        funding_apr_at_entry: of(120.0),
        funding_apr_at_exit: of(90.0),
        hold_hours: 1,
        exit_reason: ExitReason::MaxHold,
    }
}

#[test]
fn the_drawdown_is_the_deepest_of_all_falls() {
    let lists: [&[f64]; 6] = [
        &[],
        &[-1.5],
        &[1.0, 2.0, 3.0],
        &[2.0, -3.5, 1.25, -0.1, 4.0, -6.3, 0.2],
        &[-0.1, -0.2, 0.7, -0.3],
        &[0.1, 0.2, -0.3, 0.4, -0.5, 0.6],
    ];
    for list in lists {
        let mut totals = vec![0.0];
        for x in list {
            totals.push(totals.last().unwrap() + x);
        }
        let mut deepest: f64 = 0.0;
        for j in 0..totals.len() {
            for i in 0..=j {
                deepest = deepest.max(totals[i] - totals[j]);
            }
        }
        let xs: Vec<Binary64> = list.iter().map(|x| of(*x)).collect();
        assert_eq!(num(trace(&xs).deepest), deepest);
        if list.first().is_some_and(|x| *x < 0.0) {
            assert!(deepest > 0.0);
        }
    }
}

#[test]
fn shares_lie_between_none_and_all() {
    for total in [1, 3, 7, 49, 1_000_003] {
        assert_eq!(num(share_of(0, total)), 0.0);
        assert_eq!(num(share_of(total, total)), 100.0);
        for n in [1, total / 2, total - 1] {
            let s = num(share_of(n, total));
            assert!((0.0..=100.0).contains(&s));
        }
    }
    let args = market_args();
    assert_eq!(num(compute_combo_result(&vec![trade(1, 1.0); 7], &args).win_pct), 100.0);
    assert_eq!(num(compute_combo_result(&vec![trade(1, -1.0); 7], &args).win_pct), 0.0);
}

#[test]
fn no_trades_amount_to_nothing() {
    let c = compute_combo_result(&Vec::new(), &market_args());
    assert_eq!(c.trades, 0);
    for x in [c.win_pct, c.net_pnl, c.gross_pnl, c.total_costs, c.max_drawdown] {
        assert_eq!(num(x), 0.0);
    }
}

#[test]
fn trades_may_be_listed_in_any_order() {
    let args = market_args();
    let listed: Vec<Trade> = [(50, 2.0), (10, -1.0), (40, -3.0), (20, 0.5), (30, 1.0)]
        .iter()
        .map(|(t, x)| trade(*t, *x))
        .collect();
    let c = compute_combo_result(&listed, &args);
    let mut turned = listed.clone();
    turned.reverse();
    turned.swap(0, 2);
    let d = compute_combo_result(&turned, &args);
    assert_eq!(num(c.max_drawdown), 3.0);
    assert_eq!(num(d.max_drawdown), 3.0);
    assert_eq!((c.trades, num(c.win_pct)), (d.trades, num(d.win_pct)));
    assert_eq!(num(c.net_pnl), num(d.net_pnl));
}

#[test]
fn sums_in_another_order_differ_by_rounding_alone() {
    let args = market_args();
    let listed: Vec<Trade> = (0..40)
        .map(|i| trade(i / 2, if i % 3 == 0 { -0.1 } else { 0.3 } * (1.0 + i as f64 * 1.7)))
        .collect();
    let mut turned = listed.clone();
    turned.reverse();
    let c = compute_combo_result(&listed, &args);
    let d = compute_combo_result(&turned, &args);
    let size: f64 = listed.iter().map(|t| num(t.net_pnl).abs()).sum();
    let apart = (num(c.net_pnl) - num(d.net_pnl)).abs();
    assert!(apart * (1u64 << 52) as f64 <= 2.0 * 40.0 * size);
    let three = |a: f64, b: f64, c: f64| -> f64 {
        num(compute_combo_result(&vec![trade(1, a), trade(2, b), trade(3, c)], &args).net_pnl)
    };
    assert_ne!(three(0.1, 0.2, 0.3), three(0.3, 0.2, 0.1));
    assert_eq!(three(0.1, 0.2, 0.3) - three(0.3, 0.2, 0.1), 1.0 / (1u64 << 53) as f64);
}
