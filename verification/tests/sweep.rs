use funding_scanner::backtest::{
    BacktestArgs, CliExitStrategy, CoinSeries, ExitReason, FundingPoint, Side, Trade, HOUR_MS,
};
use funding_scanner::binary64::Binary64;
use funding_scanner::simulation::{simulate_on, snapshots};
use funding_scanner::sweep::{
    average, best_args, combo_cells, compute_combo_result, list_averages, progress,
    progress_lines, rank_results, run_all, run_combo, sub_progress, sweep_args, sweep_report,
    Axis, ComboResult, MAIN_RUNS,
};
use funding_scanner::tier::Tier;

fn of(x: f64) -> Binary64 {
    Binary64 { bits: x.to_bits() }
}

fn num(x: Binary64) -> f64 {
    f64::from_bits(x.bits)
}

fn key(a: &BacktestArgs) -> String {
    format!(
        "{} {:?} {} {} {} {} {}",
        a.use_maker,
        a.min_funding_apr.map(num),
        a.hold_hours,
        a.max_positions,
        num(a.hysteresis_entry_apr),
        num(a.hysteresis_exit_apr),
        match a.exit_strategy {
            CliExitStrategy::Std => 0,
            CliExitStrategy::MaxHoldOnly => 1,
            CliExitStrategy::Hysteresis => 2,
        }
    )
}

fn combo(strategy: CliExitStrategy, maker: bool, apr: f64, hold: u32, pos: usize, net: f64) -> ComboResult {
    ComboResult {
        use_maker: maker,
        min_funding_apr: of(apr),
        hold_hours: hold,
        max_positions: pos,
        exit_strategy: strategy,
        hysteresis_entry_apr: of(100.0),
        hysteresis_exit_apr: of(25.0),
        trades: 7,
        win_pct: of(42.0),
        net_pnl: of(net),
        gross_pnl: of(net + 1.0),
        total_costs: of(1.0),
        max_drawdown: of(0.5),
        annualized_pct: of(net),
    }
}

fn trade(net: f64, exit: i64) -> Trade {
    Trade {
        asset: 0,
        entry_tier: Tier::Weak,
        side: Side::Short,
        size_usd: of(100.0),
        entry_time_sec: exit - 3600,
        exit_time_sec: exit,
        gross_funding_pnl: of(net + 0.5),
        entry_cost: of(0.25),
        exit_cost: of(0.25),
        net_pnl: of(net),
        funding_apr_at_entry: of(120.0),
        funding_apr_at_exit: of(60.0),
        hold_hours: 1,
        exit_reason: ExitReason::MaxHold,
    }
}

#[test]
fn the_grid_holds_every_combination_once() {
    let all = sweep_args(30, of(1000.0));
    assert_eq!(all.len(), 228);
    let mut want = Vec::new();
    for maker in [false, true] {
        for apr in [50.0, 100.0, 150.0, 200.0] {
            for hold in [6, 12, 24] {
                for pos in [1, 3, 5] {
                    for s in 0..3 {
                        want.push(format!(
                            "{} {:?} {} {} {} 50 {}",
                            maker,
                            Some(apr),
                            hold,
                            pos,
                            apr,
                            s
                        ));
                    }
                }
            }
        }
    }
    for hold in [24, 48] {
        for entry in [100, 150, 200] {
            for exit in [25, 50] {
                want.push(format!("true None {} 3 {} {} 2", hold, entry, exit));
            }
        }
    }
    let got: Vec<String> = all.iter().map(key).collect();
    assert_eq!(got, want);
    let mut unique = got.clone();
    unique.sort();
    unique.dedup();
    assert_eq!(unique.len(), 228);
    assert_eq!(
        all.iter().filter(|a| a.exit_strategy == CliExitStrategy::Hysteresis).count(),
        84
    );
    for a in &all {
        assert_eq!(num(a.spread_bps), 20.0);
        assert_eq!(num(a.taker_fee_bps), 4.5);
        assert_eq!(num(a.maker_fee_bps), 1.5);
        assert_eq!(num(a.slippage_bps), 10.0);
        assert_eq!(a.days, 30);
    }
}

#[test]
fn what_a_run_came_to() {
    let a = sweep_args(20, of(1000.0))[0];
    let trades = vec![trade(2.0, 300), trade(-3.0, 100), trade(-0.5, 200)];
    let c = compute_combo_result(&trades, &a);
    assert_eq!(c.trades, 3);
    assert_eq!(num(c.net_pnl), 2.0 - 3.0 - 0.5);
    assert_eq!(num(c.gross_pnl), 2.5 - 2.5 + 0.0);
    assert_eq!(num(c.total_costs), 1.5);
    assert_eq!(num(c.win_pct), 100.0 * 1.0 / 3.0);
    // In the order of time: -3, -3.5, -1.5.
    assert_eq!(num(c.max_drawdown), 3.5);
    assert_eq!(num(c.annualized_pct), -1.5 / 1000.0 * 100.0 * 365.0 / 20.0);
    assert_eq!(num(c.min_funding_apr), 50.0);
    let none = compute_combo_result(&Vec::new(), &BacktestArgs { days: 0, min_funding_apr: None, ..a });
    assert_eq!((none.trades, num(none.win_pct), num(none.annualized_pct)), (0, 0.0, 0.0));
    assert_eq!(num(none.min_funding_apr), 0.0);
}

#[test]
fn the_best_run_is_the_last_of_equals() {
    let mut results = vec![
        combo(CliExitStrategy::Std, false, 50.0, 6, 1, -1.0),
        combo(CliExitStrategy::Std, true, 100.0, 12, 3, 2.0),
        combo(CliExitStrategy::MaxHoldOnly, true, 150.0, 24, 5, 2.0),
    ];
    let best = best_args(&results, 30, of(500.0)).unwrap();
    assert_eq!(best.exit_strategy, CliExitStrategy::MaxHoldOnly);
    assert_eq!(best.min_funding_apr.map(num), Some(150.0));
    assert_eq!((best.hold_hours, best.max_positions), (24, 5));
    assert_eq!(num(best.capital), 500.0);
    results.push(combo(CliExitStrategy::Hysteresis, true, 150.0, 48, 3, 9.0));
    let best = best_args(&results, 30, of(500.0)).unwrap();
    assert!(best.min_funding_apr.is_none());
    assert_eq!(num(best.hysteresis_entry_apr), 100.0);
    assert!(best_args(&Vec::new(), 30, of(500.0)).is_none());
    let order: Vec<f64> = rank_results(&results).iter().map(|c| num(c.min_funding_apr)).collect();
    assert_eq!(order, vec![150.0, 100.0, 150.0, 50.0]);
}

#[test]
fn a_run_repeated_with_its_own_parameters() {
    let mut rate = 0.0;
    let points: Vec<FundingPoint> = (0..120)
        .map(|h| {
            rate = if h % 17 < 9 { 0.0002 + 0.000001 * h as f64 } else { 0.00001 };
            FundingPoint { time_ms: h * HOUR_MS, rate: of(rate) }
        })
        .collect();
    let series = vec![CoinSeries { coin: "X".to_string(), points, volume_log: of(1.0) }];
    let end = 120 * HOUR_MS;
    let table = snapshots(&series, 0, end);
    let all = sweep_args(5, of(1000.0));
    for i in [0, 1, 2, 110, 113, 215, 216, 227] {
        let first = run_combo(&table, &series, &all[i], 0, end);
        let again = best_args(&vec![first], 5, of(1000.0)).unwrap();
        let a = simulate_on(&table, &series, &all[i], 0, end);
        let b = simulate_on(&table, &series, &again, 0, end);
        assert_eq!(format!("{:?}", a), format!("{:?}", b));
    }
}

#[test]
fn every_run_of_a_sweep() {
    let points: Vec<FundingPoint> = (0..40)
        .map(|h| {
            let rate = if h % 17 < 12 { 0.0002 + 0.000001 * h as f64 } else { 0.00001 };
            FundingPoint { time_ms: h * HOUR_MS, rate: of(rate) }
        })
        .collect();
    let series = vec![CoinSeries { coin: "X".to_string(), points, volume_log: of(1.0) }];
    let end = 40 * HOUR_MS;
    let results = run_all(&series, 2, of(1000.0), 0, end);
    let all = sweep_args(2, of(1000.0));
    assert_eq!(results.len(), 228);
    let table = snapshots(&series, 0, end);
    for i in [0, 1, 2, 57, 110, 113, 215, 216, 227] {
        let one = run_combo(&table, &series, &all[i], 0, end);
        assert_eq!(format!("{:?}", results[i]), format!("{:?}", one));
    }
    assert!(results.iter().any(|c| c.trades > 0));
    let lines = progress_lines(&results, 2, of(1000.0));
    assert_eq!(lines.len(), 229);
    assert_eq!(lines[0], progress(1, 228, &all[0], &results[0]));
    assert_eq!(lines[215], progress(216, 228, &all[215], &results[215]));
    assert_eq!(lines[216], "--- Hysteresis sub-sweep (varied thresholds) ---");
    assert_eq!(lines[217], sub_progress(217, 228, &all[216], &results[216]));
    assert_eq!(lines[228], sub_progress(228, 228, &all[227], &results[227]));
}

#[test]
fn progress_in_columns() {
    let all = sweep_args(30, of(1000.0));
    let c = combo(CliExitStrategy::Std, false, 50.0, 6, 1, -1.25);
    assert_eq!(
        progress(1, 228, &all[0], &c),
        "  combo   1/228: std           maker=false apr= 50% hold= 6h pos=1 → trades=  7 net=$-1.25"
    );
    assert_eq!(
        sub_progress(217, 228, &all[MAIN_RUNS], &c),
        "  combo 217/228: hyst_sub    maker=true  hyst_entry=100% hyst_exit= 25% hold=24h pos=3 → trades=  7 net=$-1.25"
    );
}

#[test]
fn cells_of_a_run() {
    assert_eq!(
        combo_cells(&combo(CliExitStrategy::Std, false, 50.0, 6, 1, -1.25)),
        vec!["std", "FALSE", "50", "—", "6", "1", "7", "42%", "$-1.25", "-1.2%", "$0.50"]
    );
    assert_eq!(
        combo_cells(&combo(CliExitStrategy::Hysteresis, true, 0.0, 48, 3, 2.0)),
        vec!["hysteresis", "TRUE", "100", "25", "48", "3", "7", "42%", "$+2.00", "+2.0%", "$0.50"]
    );
}

#[test]
fn a_report_on_a_sweep() {
    let mut results: Vec<ComboResult> = (0..20)
        .map(|i| combo(CliExitStrategy::Std, i % 2 == 0, 50.0 + i as f64, 6, 1, i as f64 - 10.0))
        .collect();
    results.push(combo(CliExitStrategy::Hysteresis, true, 0.0, 24, 3, 0.5));
    let r = sweep_report(&results, 30, of(1000.0));
    assert_eq!(r.head[2], "Period: 30 days | Capital: $1000 | Costs (taker round-trip): spread 20 + 2*taker 4.5 + 2*slip 10 = 49bps");
    assert_eq!(r.top.len(), 15);
    assert_eq!(num(r.top[0].net_pnl), 9.0);
    assert_eq!(num(r.top[14].net_pnl), -4.0);
    let bottom: Vec<f64> = r.bottom.iter().map(|c| num(c.net_pnl)).collect();
    assert_eq!(bottom, vec![-10.0, -9.0, -8.0, -7.0, -6.0]);
    assert_eq!(r.best_by_strategy.len(), 2);
    assert_eq!(num(r.best_by_strategy[1].net_pnl), 0.5);
    assert_eq!(
        r.insights,
        vec![
            "Best: strat=std | maker=false | min_apr=69% | hold=6h | max_pos=1",
            "      Net $+9.00 | annualized +9.0% | 7 trades | 42% win | maxDD $0.50",
            "Profitable combos for std: 9/20",
            "Profitable combos for max-hold-only: 0/0",
            "Profitable combos for hysteresis: 1/1",
            "Lowest profitable APR threshold (maker entry): 0%",
            "Lowest profitable APR threshold (taker entry): 61%",
            "Avg net P&L by hold_hours (across all maker/apr/pos combos):",
            "  24h: $+0.50  (1 combos)",
            "  6h: $-0.50  (20 combos)",
            "Avg net P&L by max_positions:",
            "  3: $+0.50  (1 combos)",
            "  1: $-0.50  (20 combos)",
        ]
    );
}

#[test]
fn a_sweep_without_profit() {
    let results = vec![combo(CliExitStrategy::Hysteresis, true, 0.0, 24, 3, -0.26)];
    let r = sweep_report(&results, 30, of(1000.0));
    assert_eq!(r.insights[0], "Best: strat=hysteresis | maker=true | hyst_entry=100% hyst_exit=25% | hold=24h | max_pos=3");
    assert!(r.insights.contains(
        &"Lowest profitable APR threshold (maker entry): no profitable maker combo found".to_string()
    ));
    assert!(r.insights.contains(
        &"Lowest profitable APR threshold (taker entry): no profitable taker combo found".to_string()
    ));
    let none = sweep_report(&Vec::new(), 30, of(1000.0));
    assert!(none.top.is_empty() && none.bottom.is_empty() && none.best_by_strategy.is_empty());
    assert_eq!(none.insights[0], "Profitable combos for std: 0/0");
}

#[test]
fn means_by_axis() {
    let results = vec![
        combo(CliExitStrategy::Std, true, 50.0, 6, 1, 1.0),
        combo(CliExitStrategy::Std, true, 50.0, 12, 1, 5.0),
        combo(CliExitStrategy::Std, true, 50.0, 6, 3, 2.0),
    ];
    let rows = list_averages(&results, Axis::HoldHours);
    assert_eq!((rows[0].key, num(rows[0].avg), rows[0].count), (12, 5.0, 1));
    assert_eq!((rows[1].key, num(rows[1].avg), rows[1].count), (6, 1.5, 2));
    assert_eq!(average(&rows[1], "h"), "  6h: $+1.50  (2 combos)");
}
