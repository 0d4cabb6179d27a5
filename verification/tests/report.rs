use funding_scanner::backtest::{BacktestArgs, CliExitStrategy, CliTier, ExitReason, Side, Trade};
use funding_scanner::binary64::Binary64;
use funding_scanner::dates::{day_text, minute_text, moment_text};
use funding_scanner::metrics::{
    count_gains, count_losses, daily_results, day, figures_by_day, in_exit_order, list_figures,
    max_drawdown, return_pct, share_of, trace, yearly, Figure,
};
use funding_scanner::report::{
    asset_cells, is_gain, period_line, report, tier_cells, trade_head, trade_lines,
};
use funding_scanner::summary::{
    are_comparable, group_of, list_assets, rows_by_asset, rows_by_reason, rows_by_tier, summarize,
    Common,
};
use funding_scanner::tier::Tier;

fn of(x: f64) -> Binary64 {
    Binary64 { bits: x.to_bits() }
}

fn num(x: Binary64) -> f64 {
    f64::from_bits(x.bits)
}

fn args() -> BacktestArgs {
    BacktestArgs {
        days: 10,
        capital: of(1000.0),
        max_positions: 3,
        min_tier: CliTier::Medium,
        hold_hours: 24,
        spread_bps: of(20.0),
        taker_fee_bps: of(4.5),
        maker_fee_bps: of(1.5),
        use_maker: true,
        slippage_bps: of(10.0),
        min_funding_apr: Some(of(100.0)),
        exit_strategy: CliExitStrategy::Std,
        hysteresis_entry_apr: of(200.0),
        hysteresis_exit_apr: of(50.0),
    }
}

const DAY: i64 = 86_400;
const START: i64 = 20_000 * DAY;

fn trade(asset: usize, exit: i64, gross: f64, tier: Tier, reason: ExitReason) -> Trade {
    let (entry_cost, exit_cost) = (0.015, 0.245);
    Trade {
        asset,
        entry_tier: tier,
        side: if gross > 0.0 { Side::Short } else { Side::Long },
        size_usd: of(100.0),
        entry_time_sec: exit - 7200,
        exit_time_sec: exit,
        gross_funding_pnl: of(gross),
        entry_cost: of(entry_cost),
        exit_cost: of(exit_cost),
        net_pnl: of(gross - entry_cost - exit_cost),
        funding_apr_at_entry: of(if gross > 0.0 { 120.0 } else { -150.0 }),
        funding_apr_at_exit: of(33.3),
        hold_hours: 2,
        exit_reason: reason,
    }
}

fn trades() -> Vec<Trade> {
    vec![
        trade(0, START + 3 * DAY + 5, 0.75, Tier::Strong, ExitReason::MaxHold),
        trade(1, START + 5, -0.5, Tier::Early, ExitReason::SignalLost),
        trade(0, START + 3 * DAY + 9, 0.25, Tier::Strong, ExitReason::SignalLost),
        trade(2, START - 2 * DAY, 0.75, Tier::Weak, ExitReason::MaxHold),
        trade(1, START + 4 * DAY, -1.25, Tier::Early, ExitReason::EndOfPeriod),
        trade(3, START + 4 * DAY + 1, 0.0, Tier::Weak, ExitReason::EndOfPeriod),
    ]
}

fn names() -> Vec<String> {
    ["AAA", "BBB", "CCC", "DDD"].iter().map(|s| s.to_string()).collect()
}

#[test]
fn texts_of_moments() {
    assert_eq!(day_text(1_738_281_600), "2025-01-31");
    assert_eq!(minute_text(1_738_281_600 + 16 * 3600), "01-31 16:00");
    assert_eq!(moment_text(0), "1970-01-01 00:00:00 UTC");
    assert_eq!(moment_text(-1), "1969-12-31 23:59:59 UTC");
    assert_eq!(day_text(i64::MAX), "");
    assert_eq!(minute_text(i64::MIN), "?");
    assert_eq!(moment_text(i64::MAX), "?");
    assert_eq!(day_text(253_402_300_799), "9999-12-31");
}

#[test]
fn figures_of_trades() {
    let ts = trades();
    let gross: Vec<f64> = list_figures(&ts, Figure::Gross).into_iter().map(num).collect();
    assert_eq!(gross, vec![0.75, -0.5, 0.25, 0.75, -1.25, 0.0]);
    assert_eq!(num(list_figures(&ts, Figure::BothCosts)[0]), 0.015 + 0.245);
    assert_eq!(num(list_figures(&ts, Figure::EntryRate)[1]), 150.0);
    assert_eq!(num(list_figures(&ts, Figure::Net)[2]), 0.25 - 0.015 - 0.245);
    let xs = list_figures(&ts, Figure::Gross);
    assert_eq!(count_gains(&xs), 3);
    assert_eq!(count_losses(&xs), 2);
    assert_eq!(num(share_of(3, 6)), 50.0);
    assert_eq!(num(share_of(1, 3)), 1.0 / 3.0 * 100.0);
    assert_eq!(num(return_pct(of(25.0), of(1000.0))), 25.0 / 1000.0 * 100.0);
    assert_eq!(num(yearly(of(2.5), 10)), 2.5 * 365.0 / 10.0);
    assert!(num(yearly(of(2.5), 0)).is_infinite());
}

#[test]
fn drawdown_goes_by_the_time_of_exit() {
    let ts = trades();
    let order: Vec<i64> = in_exit_order(&ts).iter().map(|t| t.exit_time_sec - START).collect();
    assert_eq!(order, vec![-2 * DAY, 5, 3 * DAY + 5, 3 * DAY + 9, 4 * DAY, 4 * DAY + 1]);
    // 0.75, 0.25, 1.00, 1.25, 0.00, 0.00: the deepest fall is from 1.25 to 0.
    assert_eq!(num(max_drawdown(&ts, Figure::Gross)), 1.25);
    let c = trace(&[1.0, -3.0, 5.0, -1.0].iter().map(|x| of(*x)).collect());
    assert_eq!((num(c.running), num(c.peak), num(c.deepest)), (2.0, 3.0, 3.0));
    let falling = trace(&[-1.0, -1.0].iter().map(|x| of(*x)).collect());
    assert_eq!((num(falling.peak), num(falling.deepest)), (0.0, 2.0));
    let none = trace(&Vec::new());
    assert_eq!(num(none.deepest), 0.0);
}

#[test]
fn results_by_day() {
    assert_eq!(day(DAY - 1), 0);
    assert_eq!(day(-1), 0);
    assert_eq!(day(-DAY), -1);
    let ts = trades();
    let got: Vec<f64> = daily_results(&ts, 20_000, 20_005).into_iter().map(num).collect();
    assert_eq!(got, vec![0.75, -0.5, 0.0, 0.0, 1.0, -1.25, 0.0]);
    let empty: Vec<f64> = daily_results(&ts, 5, 4).into_iter().map(num).collect();
    assert_eq!(empty, vec![0.75, -0.5, 1.0, -1.25]);
    let d = figures_by_day(&got.iter().map(|x| of(*x)).collect());
    let m = got.iter().sum::<f64>() / 7.0;
    let v = got.iter().map(|x| (x - m).powi(2)).sum::<f64>() / 7.0;
    assert_eq!(num(d.mean), m);
    assert_eq!(num(d.std), v.sqrt());
    assert_eq!(num(d.sharpe), m / v.sqrt());
    let flat = figures_by_day(&vec![of(2.0), of(2.0)]);
    assert_eq!(num(flat.sharpe), 0.0);
}

#[test]
fn the_summary_of_a_backtest() {
    let ts = trades();
    let a = args();
    let s = summarize(&ts, &a, START * 1000, (START + 5 * DAY) * 1000);
    assert_eq!((s.total, s.wins, s.losses), (6, 3, 2));
    assert_eq!(num(s.win_pct), 3.0 / 6.0 * 100.0);
    assert_eq!(num(s.loss_pct), 2.0 / 6.0 * 100.0);
    assert_eq!(num(s.total_pnl), 0.0);
    assert_eq!(num(s.avg_pnl), 0.0);
    assert_eq!(s.best, 3);
    assert_eq!(s.worst, 4);
    assert_eq!(num(s.max_dd), 1.25);
    assert_eq!(num(s.entry_costs), [0.015; 6].iter().sum::<f64>());
    assert_eq!(num(s.exit_costs), [0.245; 6].iter().sum::<f64>());
    assert_eq!(num(s.costs), num(s.entry_costs) + num(s.exit_costs));
    assert_eq!(num(s.cost_pct_of_gross), 0.0);
    assert_eq!(num(s.cost_to_profit), f64::INFINITY);
    assert_eq!(num(s.net_annualized), num(s.net) / 1000.0 * 100.0 * 365.0 / 10.0);
    assert_eq!(num(s.avg_entry_apr), (120.0 + 150.0 + 120.0 + 120.0 + 150.0 + 150.0) / 6.0);
    let gain = vec![ts[0], ts[2]];
    let g = summarize(&gain, &a, START * 1000, (START + 5 * DAY) * 1000);
    assert_eq!(num(g.cost_to_profit), 100.0 * num(g.costs) / 1.0);
    assert_eq!(num(g.cost_pct_of_gross), 100.0 * num(g.costs) / 1.0);
    assert_eq!(num(g.pct_return), 1.0 / 1000.0 * 100.0);
    assert_eq!(num(g.annualized), 1.0 / 1000.0 * 100.0 * 365.0 / 10.0);
}

#[test]
fn results_without_a_value_are_found() {
    let mut ts = trades();
    assert!(are_comparable(&ts));
    ts[2].gross_funding_pnl = of(f64::NAN);
    assert!(!are_comparable(&ts));
    assert!(are_comparable(&vec![ts[2]]));
    assert!(are_comparable(&Vec::new()));
}

#[test]
fn groups_of_trades() {
    let ts = trades();
    assert_eq!(list_assets(&ts), vec![0, 1, 2, 3]);
    assert_eq!(group_of(&ts, Common::Asset(1)).len(), 2);
    let rows = rows_by_asset(&ts);
    let order: Vec<Common> = rows.iter().map(|r| r.common).collect();
    assert_eq!(
        order,
        vec![Common::Asset(0), Common::Asset(2), Common::Asset(3), Common::Asset(1)]
    );
    assert_eq!(rows[0].trades, 2);
    assert_eq!(num(rows[0].gross), 1.0);
    assert_eq!(num(rows[0].avg), 0.5);
    assert_eq!(num(rows[0].win_pct), 100.0);
    let tiers = rows_by_tier(&ts);
    let order: Vec<Common> = tiers.iter().map(|r| r.common).collect();
    assert_eq!(
        order,
        vec![
            Common::EntryTier(Tier::Strong),
            Common::EntryTier(Tier::Early),
            Common::EntryTier(Tier::Weak)
        ]
    );
    assert_eq!(tiers.iter().map(|r| r.trades).sum::<usize>(), ts.len());
    assert_eq!(num(tiers[0].net_win_pct), 50.0);
    let reasons = rows_by_reason(&ts);
    assert_eq!(reasons.len(), 3);
    assert_eq!(reasons[0].reason, ExitReason::MaxHold);
    assert_eq!((reasons[0].trades, num(reasons[0].gross)), (2, 1.5));
    assert_eq!((reasons[1].trades, num(reasons[1].gross)), (2, -0.25));
    assert_eq!((reasons[2].trades, num(reasons[2].gross)), (2, -1.25));
    let many: Vec<Trade> = (0..30)
        .map(|a| trade(a, START, a as f64, Tier::Weak, ExitReason::MaxHold))
        .collect();
    let top = rows_by_asset(&many);
    assert_eq!(top.len(), 20);
    assert_eq!(top[0].common, Common::Asset(29));
    assert_eq!(top[19].common, Common::Asset(10));
}

#[test]
fn cells_of_the_tables() {
    let ts = trades();
    let rows = rows_by_asset(&ts);
    assert_eq!(
        asset_cells(&rows[0], "AAA"),
        vec!["AAA", "2", "100%", "$+1.00", "$+0.50", "$+0.48"]
    );
    let tiers = rows_by_tier(&ts);
    assert_eq!(
        tier_cells(&tiers[1], "EARLY"),
        vec!["EARLY", "2", "0%", "$-1.75", "$-0.88", "$-2.27", "0%"]
    );
    assert!(is_gain(of(0.0)));
    assert!(is_gain(of(-0.0)));
    assert!(!is_gain(of(-0.01)));
    assert!(!is_gain(of(f64::NAN)));
}

#[test]
fn a_trade_in_four_lines() {
    let ts = trades();
    assert_eq!(
        trade_lines(1, &ts[0], "AAA"),
        vec![
            "1. AAA SHORT entry 10-06 22:00 exit 10-07 00:00 (2h, size $100)",
            "   Entry funding: +120% APR, Exit: +33% APR",
            "   Gross funding: $+0.750, Costs: -$0.260 (entry 0.015+exit 0.245), Net: $+0.490",
            "   Reason exit: max_hold, entry tier: STRONG",
        ]
    );
}

#[test]
fn lines_that_hold_dates() {
    assert_eq!(
        period_line("2025-10-06", "2025-10-11", 5),
        "Period: 2025-10-06 to 2025-10-11 (5 days)"
    );
    assert_eq!(
        trade_head(12, &trades()[0], "AAA", "10-06 22:00", "?"),
        "12. AAA SHORT entry 10-06 22:00 exit ? (2h, size $100)"
    );
}

#[test]
fn a_report_with_trades() {
    let ts = trades();
    let r = report(&ts, &names(), &args(), START * 1000, (START + 5 * DAY) * 1000);
    assert_eq!(
        r.head,
        vec![
            "",
            "═══════════════ BACKTEST SUMMARY ═══════════════",
            "Period: 2024-10-04 to 2024-10-09 (10 days)",
            "Initial capital: $1000",
            "Max concurrent positions: 3",
            "Min tier: MEDIUM",
            "Hold hours: 24",
        ]
    );
    let f = r.findings.unwrap();
    let has = |line: &str| assert!(f.figures.iter().any(|l| l == line), "{}\n{:#?}", line, f.figures);
    has("Total trades: 6");
    has("Winning: 3 (50%)");
    has("Losing:  2 (33%)");
    has("Avg P&L per trade (gross): $+0.00");
    has("Best trade (gross):  $+0.75 (CCC, 2h hold, side=SHORT)");
    has("Worst trade (gross): $-1.25 (BBB, 2h hold, exit_reason=end_of_period)");
    has("Total P&L (gross): $+0.00 (+0.00% over 10 days, ~+0% annualized)");
    has("Max drawdown (gross): $-1.25 (peak to trough)");
    has("Entry cost per trade: 1.5 bps (maker (mid fill assumed))");
    has("Exit cost per trade:  24.5 bps (taker = spread/2 + taker_fee + slippage)");
    has("Total entry costs: $0.09");
    has("Total exit costs:  $1.47");
    has("Total costs: $1.56 (0.0% of gross P&L)");
    has("Net P&L (after costs):    $-1.56");
    has("Cost-to-profit ratio: n/a (gross P&L ≤ 0)");
    has("Break-even funding APR: 95% (минимум |APR| при котором funding покрывает costs за 24h hold)");
    has("Average |funding APR| at entry: 135%");
    has("  ✓ Avg entry APR (135%) >= break-even (95%) — стратегия выживает (по среднему).");
    assert_eq!(f.best_trades.len(), 20);
    assert!(f.best_trades[0].starts_with("1. AAA "));
    assert!(f.best_trades[4].starts_with("2. CCC "));
    assert!(f.worst_trades[0].starts_with("1. BBB "));
    assert_eq!(f.by_asset.len(), 4);
    assert_eq!(f.by_tier.len(), 3);
    assert_eq!(f.by_reason.len(), 3);
}

#[test]
fn a_report_without_trades() {
    let r = report(&Vec::new(), &Vec::new(), &args(), START * 1000, (START + 5 * DAY) * 1000);
    assert!(r.findings.is_none());
    assert_eq!(r.head.len(), 12);
    assert_eq!(r.head[8], "No trades executed. Possible reasons:");
}

#[test]
fn costs_that_eat_the_profit_are_told() {
    let ts = vec![trade(0, START, 0.1, Tier::Weak, ExitReason::MaxHold)];
    let low = BacktestArgs { use_maker: false, ..args() };
    let r = report(&ts, &names(), &low, START * 1000, START * 1000);
    let f = r.findings.unwrap();
    assert!(f
        .figures
        .iter()
        .any(|l| l == "Cost-to-profit ratio: 260.0% (>100% — стратегия структурно убыточна)"));
    assert!(f.figures.iter().any(|l| l
        == "  ⚠ Avg entry APR (120%) < break-even (179%) — стратегия структурно убыточна с этими costs."));
    let rich = vec![trade(0, START, 10.0, Tier::Weak, ExitReason::MaxHold)];
    let f = report(&rich, &names(), &low, START * 1000, START * 1000).findings.unwrap();
    assert!(f.figures.iter().any(|l| l == "Cost-to-profit ratio: 2.6% "));
}
