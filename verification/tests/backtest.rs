use funding_scanner::backtest::{
    admits, apr_at, break_even_apr_pct, classify_tier, cli_tier_rank, entry_cost_bps,
    exit_cost_bps, exit_reason_str, exit_strategy_label, is_in_time_order, min_tier_label,
    min_tier_satisfied, side_str, state_at, still_admit, tier_size_pct,
};
use funding_scanner::backtest::{
    AssetSnap, BacktestArgs, CliExitStrategy, CliTier, CoinSeries, ExitReason, FundingPoint, Side,
    Trade, HOUR_MS, LOOKBACK_MS,
};
use funding_scanner::binary64::Binary64;
use funding_scanner::decimal::fixed_text;
use funding_scanner::simulation::{replay_hours, simulate, simulate_on, snapshots};
use funding_scanner::stats::{
    compute_score, matches_trend, mean, spread, sum, trend, volume_ratio, TrendDir,
};
use funding_scanner::tier::{tier_label, tier_rank, Tier};

fn of(x: f64) -> Binary64 {
    Binary64 { bits: x.to_bits() }
}

fn num(x: Binary64) -> f64 {
    f64::from_bits(x.bits)
}

fn defaults() -> BacktestArgs {
    BacktestArgs {
        days: 30,
        capital: of(1000.0),
        max_positions: 3,
        min_tier: CliTier::Medium,
        hold_hours: 24,
        spread_bps: of(20.0),
        taker_fee_bps: of(4.5),
        maker_fee_bps: of(1.5),
        use_maker: false,
        slippage_bps: of(10.0),
        min_funding_apr: None,
        exit_strategy: CliExitStrategy::Std,
        hysteresis_entry_apr: of(200.0),
        hysteresis_exit_apr: of(50.0),
    }
}

fn volume_log(volume: f64) -> Binary64 {
    of(num(volume_ratio(of(volume))).log10())
}

/// A reproducible source of numbers between zero and one.
struct Noise {
    state: u64,
}

impl Noise {
    fn next(&mut self) -> f64 {
        self.state = self.state.wrapping_mul(6_364_136_223_846_793_005).wrapping_add(1_442_695_040_888_963_407);
        (self.state >> 11) as f64 / (1u64 << 53) as f64
    }
}

const VOLUMES: [f64; 6] = [50_000.0, 3_000_000.0, 25_000_000.0, 700_000.0, 0.0, 123_456_789.0];

/// Six coins over some hours, with spikes, sign changes and holes.
fn history(hours: i64, seed: u64) -> Vec<Vec<(i64, f64)>> {
    let mut noise = Noise { state: seed };
    let mut out = Vec::new();
    for c in 0..6 {
        let mut points = Vec::new();
        let mut rate = 0.0001 * (c as f64 - 2.0);
        for h in 0..hours {
            rate = rate * 0.8 + (noise.next() - 0.5) * 0.0004;
            if noise.next() > 0.96 {
                rate += (noise.next() - 0.3) * 0.004;
            }
            if noise.next() > 0.04 {
                points.push((h * HOUR_MS + (noise.next() * 60_000.0) as i64, rate));
            }
        }
        out.push(points);
    }
    out
}

fn series_of(data: &[Vec<(i64, f64)>]) -> Vec<CoinSeries> {
    data.iter()
        .enumerate()
        .map(|(c, points)| CoinSeries {
            coin: format!("C{}", c),
            points: points
                .iter()
                .map(|(t, r)| FundingPoint { time_ms: *t, rate: of(*r) })
                .collect(),
            volume_log: volume_log(VOLUMES[c]),
        })
        .collect()
}

#[derive(Clone, Debug)]
struct Reading {
    apr: f64,
    std_pct: f64,
    tier: Option<Tier>,
    count: usize,
}

fn plain_score(apr: f64, avg: f64, std_pct: f64, volume: f64, dir: i32) -> f64 {
    let base = (apr.abs() / 5.0).min(50.0);
    let liquid = ((volume / 100_000.0).max(1.0).log10() * 10.0).min(20.0);
    let stable = (30.0 - std_pct).max(0.0);
    let bonus = if (dir > 0 && avg > 0.0) || (dir < 0 && avg < 0.0) { 10.0 } else { 0.0 };
    (base + liquid + stable + bonus).clamp(0.0, 100.0)
}

fn plain_tier(score: f64, std_pct: f64, count: usize) -> Option<Tier> {
    if std_pct > 70.0 {
        None
    } else if score > 70.0 && std_pct < 30.0 && count >= 18 {
        Some(Tier::Strong)
    } else if score > 50.0 && std_pct < 50.0 && count >= 8 {
        Some(Tier::Medium)
    } else if score > 40.0 && count >= 3 {
        Some(Tier::Early)
    } else if score > 30.0 {
        Some(Tier::Weak)
    } else {
        None
    }
}

fn plain_reading(points: &[(i64, f64)], t: i64, volume: f64) -> Option<Reading> {
    let aprs: Vec<f64> = points
        .iter()
        .filter(|(time, _)| *time >= t - LOOKBACK_MS && *time <= t)
        .map(|(_, r)| r * 24.0 * 365.0 * 100.0)
        .collect();
    let last = *aprs.last()?;
    let n = aprs.len();
    let avg = aprs.iter().sum::<f64>() / n as f64;
    let square = aprs.iter().map(|a| a * a).sum::<f64>() / n as f64;
    let std = (square - avg * avg).max(0.0).sqrt();
    let std_pct = if avg.abs() > 1e-9 { 100.0 * std / avg.abs() } else { 0.0 };
    let dir = if n < 3 {
        0
    } else if aprs[n - 1] > aprs[n - 2] && aprs[n - 2] > aprs[n - 3] {
        1
    } else if aprs[n - 1] < aprs[n - 2] && aprs[n - 2] < aprs[n - 3] {
        -1
    } else {
        0
    };
    let score = plain_score(last, avg, std_pct, volume, dir);
    Some(Reading { apr: last, std_pct, tier: plain_tier(score, std_pct, n), count: n })
}

/// What a trade comes to, in plain numbers.
#[derive(Clone, Debug, PartialEq)]
struct Plain {
    asset: usize,
    short: bool,
    size: f64,
    entry: i64,
    exit: i64,
    gross: f64,
    net: f64,
    apr_in: f64,
    apr_out: f64,
    hours: u32,
    reason: &'static str,
    tier: &'static str,
}

fn plain_of(t: &Trade) -> Plain {
    Plain {
        asset: t.asset,
        short: t.side == Side::Short,
        size: num(t.size_usd),
        entry: t.entry_time_sec,
        exit: t.exit_time_sec,
        gross: num(t.gross_funding_pnl),
        net: num(t.net_pnl),
        apr_in: num(t.funding_apr_at_entry),
        apr_out: num(t.funding_apr_at_exit),
        hours: t.hold_hours,
        reason: exit_reason_str(t.exit_reason),
        tier: tier_label(t.entry_tier),
    }
}

/// The same rules over plain floating-point numbers.
fn plain_run(data: &[Vec<(i64, f64)>], args: &BacktestArgs, start: i64, end: i64) -> Vec<Plain> {
    let capital = num(args.capital);
    let taker = num(args.spread_bps) / 2.0 + num(args.taker_fee_bps) + num(args.slippage_bps);
    let entry_bps = if args.use_maker { num(args.maker_fee_bps) } else { taker };
    let hysteresis = args.exit_strategy == CliExitStrategy::Hysteresis;
    let by_rate = hysteresis || args.min_funding_apr.is_some();
    let may_enter = |r: &Reading| {
        if hysteresis {
            r.apr.abs() >= num(args.hysteresis_entry_apr) && r.std_pct < 70.0
        } else if let Some(m) = args.min_funding_apr {
            r.apr.abs() >= num(m) && r.std_pct < 70.0
        } else {
            r.tier.is_some_and(|t| tier_rank(t) >= cli_tier_rank(args.min_tier))
        }
    };
    let may_stay = |r: &Option<Reading>| match (args.exit_strategy, r) {
        (CliExitStrategy::MaxHoldOnly, _) => true,
        (_, None) => false,
        (CliExitStrategy::Hysteresis, Some(r)) => r.apr.abs() >= num(args.hysteresis_exit_apr),
        (CliExitStrategy::Std, Some(r)) => match args.min_funding_apr {
            Some(m) => r.apr.abs() >= num(m) && r.std_pct < 70.0,
            None => r.tier.is_some_and(|t| tier_rank(t) >= cli_tier_rank(args.min_tier)),
        },
    };
    let last_rate = |c: usize, t: i64| {
        data[c].iter().rev().find(|(time, _)| *time <= t).map(|(_, r)| r * 24.0 * 365.0 * 100.0)
    };
    let mut open: Vec<(Plain, f64)> = Vec::new();
    let mut done: Vec<Plain> = Vec::new();
    let finish = |mut p: Plain, cost: f64, t: i64, apr: Option<f64>, reason: &'static str| {
        p.exit = t / 1000;
        p.net = p.gross - cost - p.size * taker / 10000.0;
        p.apr_out = apr.unwrap_or(p.apr_in);
        p.hours = (((t / 1000 - p.entry) / 3600) as u32).max(1);
        p.reason = reason;
        p
    };
    let last_hour = end / HOUR_MS * HOUR_MS;
    let mut t = (start + LOOKBACK_MS) / HOUR_MS * HOUR_MS;
    while t <= last_hour {
        let now: Vec<Option<Reading>> =
            (0..data.len()).map(|c| plain_reading(&data[c], t, VOLUMES[c])).collect();
        for (p, _) in open.iter_mut() {
            if let Some((_, rate)) =
                data[p.asset].iter().rev().find(|(time, _)| *time > t - HOUR_MS && *time <= t)
            {
                p.gross += if p.short { rate * p.size } else { -rate * p.size };
            }
        }
        let mut stay = Vec::new();
        for (p, cost) in open {
            let age = ((t / 1000 - p.entry) / 3600) as u32;
            let reason = if age >= args.hold_hours {
                Some("max_hold")
            } else if !may_stay(&now[p.asset]) {
                Some("signal_lost")
            } else {
                None
            };
            match reason {
                Some(r) => {
                    let apr = now[p.asset].as_ref().map(|s| s.apr).or(last_rate(p.asset, t));
                    done.push(finish(p, cost, t, apr, r));
                }
                None => stay.push((p, cost)),
            }
        }
        open = stay;
        let mut ready: Vec<usize> = (0..data.len())
            .filter(|c| {
                now[*c].as_ref().is_some_and(may_enter) && !open.iter().any(|(p, _)| p.asset == *c)
            })
            .collect();
        ready.sort_by(|a, b| {
            let (a, b) = (now[*a].as_ref().unwrap(), now[*b].as_ref().unwrap());
            let by_apr = b.apr.abs().partial_cmp(&a.apr.abs()).unwrap();
            if by_rate {
                by_apr
            } else {
                let rank = |r: &Reading| r.tier.map(tier_rank).unwrap_or(0);
                rank(b).cmp(&rank(a)).then(by_apr)
            }
        });
        for c in ready {
            if open.len() >= args.max_positions {
                break;
            }
            let r = now[c].as_ref().unwrap();
            let tier = r.tier.unwrap_or(Tier::Weak);
            let part = match tier {
                Tier::Strong => 0.20,
                Tier::Medium => 0.10,
                Tier::Early => 0.05,
                Tier::Weak => 0.02,
            };
            let size = capital * if by_rate { 0.10 } else { part };
            open.push((
                Plain {
                    asset: c,
                    short: r.apr > 0.0,
                    size,
                    entry: t / 1000,
                    exit: 0,
                    gross: 0.0,
                    net: 0.0,
                    apr_in: r.apr,
                    apr_out: 0.0,
                    hours: 0,
                    reason: "",
                    tier: tier_label(tier),
                },
                size * entry_bps / 10000.0,
            ));
        }
        t += HOUR_MS;
    }
    for (p, cost) in open {
        let apr = last_rate(p.asset, last_hour);
        done.push(finish(p, cost, last_hour, apr, "end_of_period"));
    }
    done
}

#[test]
fn labels() {
    assert_eq!(exit_strategy_label(CliExitStrategy::Std), "std");
    assert_eq!(exit_strategy_label(CliExitStrategy::MaxHoldOnly), "max-hold-only");
    assert_eq!(exit_strategy_label(CliExitStrategy::Hysteresis), "hysteresis");
    assert_eq!(side_str(Side::Long), "LONG");
    assert_eq!(side_str(Side::Short), "SHORT");
    assert_eq!(exit_reason_str(ExitReason::MaxHold), "max_hold");
    assert_eq!(exit_reason_str(ExitReason::SignalLost), "signal_lost");
    assert_eq!(exit_reason_str(ExitReason::EndOfPeriod), "end_of_period");
    assert_eq!(min_tier_label(CliTier::Strong), "STRONG");
    assert_eq!(min_tier_label(CliTier::Medium), "MEDIUM");
    assert_eq!(min_tier_label(CliTier::Early), "EARLY");
    assert_eq!(tier_label(Tier::Strong), "STRONG");
    assert_eq!(tier_label(Tier::Medium), "MEDIUM");
    assert_eq!(tier_label(Tier::Early), "EARLY");
    assert_eq!(tier_label(Tier::Weak), "WEAK");
}

#[test]
fn ranks_and_least_tiers() {
    assert_eq!(tier_rank(Tier::Strong), 3);
    assert_eq!(tier_rank(Tier::Medium), 2);
    assert_eq!(tier_rank(Tier::Early), 1);
    assert_eq!(tier_rank(Tier::Weak), 0);
    assert_eq!(cli_tier_rank(CliTier::Strong), 3);
    assert_eq!(cli_tier_rank(CliTier::Medium), 2);
    assert_eq!(cli_tier_rank(CliTier::Early), 1);
    assert!(min_tier_satisfied(CliTier::Medium, Tier::Strong));
    assert!(min_tier_satisfied(CliTier::Medium, Tier::Medium));
    assert!(!min_tier_satisfied(CliTier::Medium, Tier::Early));
    assert!(!min_tier_satisfied(CliTier::Early, Tier::Weak));
    assert_eq!(num(tier_size_pct(Tier::Strong)), 0.20);
    assert_eq!(num(tier_size_pct(Tier::Medium)), 0.10);
    assert_eq!(num(tier_size_pct(Tier::Early)), 0.05);
    assert_eq!(num(tier_size_pct(Tier::Weak)), 0.02);
}

#[test]
fn hourly_tiers_at_their_edges() {
    let tier = |score: f64, std: f64, count: usize| classify_tier(of(score), of(std), count);
    assert_eq!(tier(70.5, 29.0, 18), Some(Tier::Strong));
    assert_eq!(tier(70.0, 29.0, 18), Some(Tier::Medium));
    assert_eq!(tier(70.5, 30.0, 18), Some(Tier::Medium));
    assert_eq!(tier(70.5, 29.0, 17), Some(Tier::Medium));
    assert_eq!(tier(60.0, 50.0, 8), Some(Tier::Early));
    assert_eq!(tier(60.0, 49.9, 7), Some(Tier::Early));
    assert_eq!(tier(41.0, 70.0, 3), Some(Tier::Early));
    assert_eq!(tier(41.0, 70.0, 2), Some(Tier::Weak));
    assert_eq!(tier(40.0, 10.0, 24), Some(Tier::Weak));
    assert_eq!(tier(30.0, 10.0, 24), None);
    assert_eq!(tier(99.0, 70.1, 24), None);
    assert_eq!(tier(f64::NAN, 10.0, 24), None);
}

#[test]
fn costs_of_a_round_trip() {
    let taker = defaults();
    let maker = BacktestArgs { use_maker: true, ..taker };
    assert_eq!(num(entry_cost_bps(&taker)), 24.5);
    assert_eq!(num(entry_cost_bps(&maker)), 1.5);
    assert_eq!(num(exit_cost_bps(&taker)), 24.5);
    assert_eq!(num(exit_cost_bps(&maker)), 24.5);
    assert_eq!(num(entry_cost_bps(&taker)) + num(exit_cost_bps(&taker)), 49.0);
    assert_eq!(num(entry_cost_bps(&maker)) + num(exit_cost_bps(&maker)), 26.0);
}

#[test]
fn break_even_rates() {
    let taker = defaults();
    let maker = BacktestArgs { use_maker: true, ..taker };
    assert_eq!(num(break_even_apr_pct(&taker)), (24.5 + 24.5) * 87.6 / 24.0);
    assert_eq!(fixed_text(break_even_apr_pct(&taker), 0), "179");
    assert_eq!(fixed_text(break_even_apr_pct(&maker), 0), "95");
    let never = BacktestArgs { hold_hours: 0, ..taker };
    assert_eq!(num(break_even_apr_pct(&never)), f64::INFINITY);
}

#[test]
fn sums_start_from_the_neutral_element() {
    let none: Vec<f64> = Vec::new();
    assert_eq!(sum(&Vec::new()).bits, none.iter().sum::<f64>().to_bits());
    let xs = [0.1, 0.2, 0.3, -1e17, 1e17, 3.5];
    let ys: Vec<Binary64> = xs.iter().map(|x| of(*x)).collect();
    assert_eq!(num(sum(&ys)), xs.iter().sum::<f64>());
    assert_eq!(num(mean(&ys)), xs.iter().sum::<f64>() / 6.0);
    let s = spread(&[1.0, 2.0, 3.0, 4.0].iter().map(|x| of(*x)).collect());
    assert_eq!(num(s.avg), 2.5);
    assert_eq!(num(s.std), 1.25f64.sqrt());
    assert_eq!(num(s.std_pct), 100.0 * 1.25f64.sqrt() / 2.5);
    let flat = spread(&[1e-10, -1e-10].iter().map(|x| of(*x)).collect());
    assert_eq!(num(flat.std_pct), 0.0);
}

#[test]
fn trends_and_their_bonus() {
    assert_eq!(trend(of(1.0), of(2.0), of(3.0)), TrendDir::Up);
    assert_eq!(trend(of(3.0), of(2.0), of(1.0)), TrendDir::Down);
    assert_eq!(trend(of(1.0), of(2.0), of(2.0)), TrendDir::Flat);
    assert_eq!(trend(of(1.0), of(f64::NAN), of(2.0)), TrendDir::Flat);
    assert!(matches_trend(of(5.0), TrendDir::Up));
    assert!(matches_trend(of(-5.0), TrendDir::Down));
    assert!(matches_trend(of(5e-324), TrendDir::Up));
    assert!(matches_trend(of(-5e-324), TrendDir::Down));
    for zero in [0.0, -0.0] {
        for dir in [TrendDir::Up, TrendDir::Down, TrendDir::Flat] {
            assert!(!matches_trend(of(zero), dir));
        }
    }
    assert!(!matches_trend(of(-5.0), TrendDir::Up));
    assert!(!matches_trend(of(5.0), TrendDir::Down));
    assert!(!matches_trend(of(5.0), TrendDir::Flat));
    assert!(!matches_trend(of(f64::NAN), TrendDir::Up));
}

#[test]
fn scores_match_the_formula() {
    for (apr, avg, std, volume) in [
        (300.0, 290.0, 10.0, 20_000_000.0),
        (-120.0, -100.0, 35.0, 150_000.0),
        (12.0, 11.0, 0.0, 10.0),
        (0.0, 0.0, 200.0, 0.0),
        (1e9, -3.0, 29.999, 1e300),
    ] {
        for (dir, d) in [(TrendDir::Up, 1), (TrendDir::Down, -1), (TrendDir::Flat, 0)] {
            let got = compute_score(of(apr), of(avg), of(std), volume_log(volume), dir);
            assert_eq!(num(got), plain_score(apr, avg, std, volume, d));
        }
    }
    assert_eq!(num(compute_score(of(250.0), of(1.0), of(0.0), of(2.0), TrendDir::Up)), 100.0);
    assert_eq!(num(volume_ratio(of(50_000.0))), 1.0);
    assert_eq!(num(volume_ratio(of(10_000_000.0))), 100.0);
}

#[test]
fn last_rate_up_to_a_time() {
    let points: Vec<FundingPoint> = [(10, 0.0001), (20, 0.0002), (20, 0.0003), (40, -0.0001)]
        .iter()
        .map(|(t, r)| FundingPoint { time_ms: *t, rate: of(*r) })
        .collect();
    assert!(is_in_time_order(&points));
    assert!(apr_at(&points, 9).is_none());
    assert_eq!(num(apr_at(&points, 10).unwrap()), 0.0001 * 24.0 * 365.0 * 100.0);
    assert_eq!(num(apr_at(&points, 39).unwrap()), 0.0003 * 24.0 * 365.0 * 100.0);
    assert_eq!(num(apr_at(&points, 1000).unwrap()), -0.0001 * 24.0 * 365.0 * 100.0);
    let mut reversed = points;
    reversed.reverse();
    assert!(!is_in_time_order(&reversed));
    assert!(is_in_time_order(&Vec::new()));
}

#[test]
fn readings_match_plain_arithmetic() {
    let data = history(60, 7);
    for (c, points) in data.iter().enumerate() {
        let own: Vec<FundingPoint> =
            points.iter().map(|(t, r)| FundingPoint { time_ms: *t, rate: of(*r) }).collect();
        for h in 0..62 {
            let t = h * HOUR_MS;
            let got = state_at(&own, t, LOOKBACK_MS, volume_log(VOLUMES[c]));
            match (got, plain_reading(points, t, VOLUMES[c])) {
                (None, None) => {}
                (Some(s), Some(r)) => {
                    assert_eq!(num(s.apr_now), r.apr);
                    assert_eq!(num(s.std_pct), r.std_pct);
                    assert_eq!(s.natural_tier, r.tier);
                    assert_eq!(s.count, r.count);
                }
                other => panic!("{:?}", other),
            }
        }
    }
}

#[test]
fn rules_of_entry() {
    let snap = |apr: f64, std: f64, tier: Option<Tier>| AssetSnap {
        apr_now: of(apr),
        std_pct: of(std),
        natural_tier: tier,
        count: 24,
    };
    let by_tier = defaults();
    assert!(admits(&by_tier, &snap(10.0, 10.0, Some(Tier::Medium))));
    assert!(!admits(&by_tier, &snap(500.0, 10.0, Some(Tier::Early))));
    assert!(!admits(&by_tier, &snap(500.0, 10.0, None)));
    let by_rate = BacktestArgs { min_funding_apr: Some(of(100.0)), ..by_tier };
    assert!(admits(&by_rate, &snap(-100.0, 69.0, None)));
    assert!(!admits(&by_rate, &snap(99.9, 10.0, Some(Tier::Strong))));
    assert!(!admits(&by_rate, &snap(200.0, 70.0, Some(Tier::Strong))));
    let hysteresis = BacktestArgs { exit_strategy: CliExitStrategy::Hysteresis, ..by_rate };
    assert!(!admits(&hysteresis, &snap(150.0, 10.0, None)));
    assert!(admits(&hysteresis, &snap(-200.0, 10.0, None)));
}

#[test]
fn rules_of_exit() {
    let snap = |apr: f64, std: f64, tier: Option<Tier>| {
        Some(AssetSnap { apr_now: of(apr), std_pct: of(std), natural_tier: tier, count: 24 })
    };
    let by_tier = defaults();
    assert!(still_admit(&by_tier, snap(1.0, 1.0, Some(Tier::Strong))));
    assert!(still_admit(&by_tier, snap(1.0, 1.0, Some(Tier::Medium))));
    assert!(!still_admit(&by_tier, snap(1.0, 1.0, Some(Tier::Early))));
    assert!(!still_admit(&by_tier, snap(1.0, 1.0, Some(Tier::Weak))));
    let strong = BacktestArgs { min_tier: CliTier::Strong, ..by_tier };
    assert!(!still_admit(&strong, snap(100.0, 40.0, Some(Tier::Early))));
    let early = BacktestArgs { min_tier: CliTier::Early, ..by_tier };
    assert!(still_admit(&early, snap(1.0, 1.0, Some(Tier::Early))));
    assert!(!still_admit(&early, snap(1.0, 1.0, Some(Tier::Weak))));
    assert!(!still_admit(&by_tier, snap(1.0, 1.0, None)));
    assert!(!still_admit(&by_tier, None));
    let by_rate = BacktestArgs { min_funding_apr: Some(of(100.0)), ..by_tier };
    assert!(still_admit(&by_rate, snap(-100.0, 69.0, None)));
    assert!(!still_admit(&by_rate, snap(-99.0, 69.0, Some(Tier::Strong))));
    let only_time = BacktestArgs { exit_strategy: CliExitStrategy::MaxHoldOnly, ..by_tier };
    assert!(still_admit(&only_time, None));
    let hysteresis = BacktestArgs { exit_strategy: CliExitStrategy::Hysteresis, ..by_tier };
    assert!(still_admit(&hysteresis, snap(-50.0, 500.0, None)));
    assert!(!still_admit(&hysteresis, snap(49.0, 1.0, None)));
    assert!(!still_admit(&hysteresis, None));
}

#[test]
fn both_ends_of_the_window_belong_to_it() {
    let points = |times: &[i64]| -> Vec<FundingPoint> {
        times.iter().map(|t| FundingPoint { time_ms: *t, rate: of(0.001) }).collect()
    };
    let count = |times: &[i64], t: i64| {
        state_at(&points(times), t, LOOKBACK_MS, volume_log(0.0)).map(|s| s.count)
    };
    assert_eq!(count(&[0], LOOKBACK_MS), Some(1));
    assert_eq!(count(&[0], LOOKBACK_MS + 1), None);
    assert_eq!(count(&[0, 0, 5, LOOKBACK_MS], LOOKBACK_MS), Some(4));
    assert_eq!(count(&[0, 1, LOOKBACK_MS + 2], LOOKBACK_MS + 1), Some(1));
    assert_eq!(count(&[i64::MIN, i64::MIN + 1], i64::MIN + LOOKBACK_MS), Some(2));
}

#[test]
fn hours_of_a_replay() {
    assert_eq!(replay_hours(0, LOOKBACK_MS), vec![LOOKBACK_MS]);
    assert_eq!(
        replay_hours(1, LOOKBACK_MS + 2 * HOUR_MS + 5),
        vec![LOOKBACK_MS, LOOKBACK_MS + HOUR_MS, LOOKBACK_MS + 2 * HOUR_MS]
    );
    assert!(replay_hours(0, LOOKBACK_MS - 1).is_empty());
    assert!(simulate(&series_of(&history(10, 1)), &defaults(), 0, LOOKBACK_MS - 1).is_empty());
}

#[test]
fn a_backtest_matches_plain_arithmetic() {
    let data = history(240, 99);
    let series = series_of(&data);
    let (start, end) = (0, 240 * HOUR_MS + 17);
    let table = snapshots(&series, start, end);
    let base = defaults();
    let mut seen = 0;
    for exit_strategy in
        [CliExitStrategy::Std, CliExitStrategy::MaxHoldOnly, CliExitStrategy::Hysteresis]
    {
        for min_funding_apr in [None, Some(of(60.0)), Some(of(150.0))] {
            for (max_positions, hold_hours) in [(1, 6), (3, 24), (5, 1), (2, 0)] {
                let args = BacktestArgs {
                    exit_strategy,
                    min_funding_apr,
                    max_positions,
                    hold_hours,
                    min_tier: CliTier::Early,
                    hysteresis_entry_apr: of(120.0),
                    hysteresis_exit_apr: of(40.0),
                    use_maker: max_positions == 3,
                    ..base
                };
                let got: Vec<Plain> =
                    simulate_on(&table, &series, &args, start, end).iter().map(plain_of).collect();
                let want = plain_run(&data, &args, start, end);
                assert_eq!(got, want);
                seen += got.len();
            }
        }
    }
    assert!(seen > 100, "only {} trades", seen);
    let again: Vec<Plain> = simulate(&series, &base, start, end).iter().map(plain_of).collect();
    assert_eq!(again, plain_run(&data, &base, start, end));
}

#[test]
fn every_trade_keeps_the_rules() {
    let data = history(480, 99);
    let series = series_of(&data);
    let args = BacktestArgs {
        min_funding_apr: Some(of(20.0)),
        max_positions: 2,
        hold_hours: 8,
        ..defaults()
    };
    let trades = simulate(&series, &args, 0, 480 * HOUR_MS);
    assert!(trades.len() > 10, "{} trades", trades.len());
    for (i, t) in trades.iter().enumerate() {
        assert!(t.hold_hours >= 1 && t.hold_hours <= 8);
        assert_eq!(t.exit_reason == ExitReason::MaxHold, t.hold_hours == 8 && t.exit_reason != ExitReason::EndOfPeriod);
        assert_eq!(num(t.size_usd), 100.0);
        assert_eq!(num(t.entry_cost), 100.0 * 24.5 / 10000.0);
        assert_eq!(num(t.net_pnl), num(t.gross_funding_pnl) - num(t.entry_cost) - num(t.exit_cost));
        assert_eq!(t.side == Side::Short, num(t.funding_apr_at_entry) > 0.0);
        let overlapping = trades
            .iter()
            .filter(|o| o.entry_time_sec <= t.entry_time_sec && t.entry_time_sec < o.exit_time_sec)
            .count();
        assert!(overlapping <= 2);
        for o in &trades[i + 1..] {
            assert!(t.exit_time_sec <= o.exit_time_sec);
            assert!(t.asset != o.asset || t.exit_time_sec <= o.entry_time_sec);
        }
    }
}

#[test]
fn unread_parameters_do_not_matter_to_a_run() {
    let series = series_of(&history(200, 21));
    let run = |args: &BacktestArgs| -> Vec<Plain> {
        simulate(&series, args, 0, 200 * HOUR_MS).iter().map(plain_of).collect()
    };
    let a = BacktestArgs {
        exit_strategy: CliExitStrategy::Hysteresis,
        hysteresis_entry_apr: of(100.0),
        ..defaults()
    };
    let b = BacktestArgs {
        min_funding_apr: Some(of(9000.0)),
        min_tier: CliTier::Strong,
        ..a
    };
    assert!(!run(&a).is_empty());
    assert_eq!(run(&a), run(&b));
    for exit_strategy in [CliExitStrategy::Std, CliExitStrategy::MaxHoldOnly] {
        for min_funding_apr in [None, Some(of(60.0))] {
            let c = BacktestArgs {
                exit_strategy,
                min_funding_apr,
                min_tier: CliTier::Early,
                ..defaults()
            };
            let d = BacktestArgs {
                hysteresis_entry_apr: of(1.0),
                hysteresis_exit_apr: of(7.0),
                min_tier: if min_funding_apr.is_some() { CliTier::Strong } else { c.min_tier },
                ..c
            };
            assert!(!run(&c).is_empty());
            assert_eq!(run(&c), run(&d));
        }
    }
}

#[test]
fn reasons_of_exits_are_true() {
    let series = series_of(&history(240, 99));
    let end = 240 * HOUR_MS + 17;
    let table = snapshots(&series, 0, end);
    let mut seen = [0, 0, 0];
    for exit_strategy in
        [CliExitStrategy::Std, CliExitStrategy::MaxHoldOnly, CliExitStrategy::Hysteresis]
    {
        for hold_hours in [0, 1, 6, 24] {
            let args = BacktestArgs {
                exit_strategy,
                hold_hours,
                min_funding_apr: Some(of(20.0)),
                hysteresis_entry_apr: of(60.0),
                ..defaults()
            };
            let full = 3600 * i64::from(hold_hours.max(1));
            for t in simulate_on(&table, &series, &args, 0, end) {
                let lasted = t.exit_time_sec - t.entry_time_sec;
                assert_eq!(t.exit_reason == ExitReason::MaxHold, lasted == full);
                match t.exit_reason {
                    ExitReason::MaxHold => seen[0] += 1,
                    ExitReason::SignalLost => {
                        assert!(lasted < full && exit_strategy != CliExitStrategy::MaxHoldOnly);
                        seen[1] += 1;
                    }
                    ExitReason::EndOfPeriod => {
                        assert!(lasted < full);
                        assert_eq!(t.exit_time_sec * 1000, 240 * HOUR_MS);
                        seen[2] += 1;
                    }
                }
            }
        }
    }
    assert!(seen.iter().all(|n| *n > 0), "{:?}", seen);
}

#[test]
fn the_strongest_fill_every_place() {
    let rates = [0.0002, 0.0005, 0.0003];
    let data: Vec<Vec<(i64, f64)>> =
        rates.iter().map(|r| (0..60).map(|h| (h * HOUR_MS, *r)).collect()).collect();
    let args = BacktestArgs {
        exit_strategy: CliExitStrategy::MaxHoldOnly,
        min_funding_apr: Some(of(20.0)),
        max_positions: 2,
        hold_hours: 6,
        ..defaults()
    };
    let trades = simulate(&series_of(&data), &args, 0, 59 * HOUR_MS);
    assert!(trades.iter().all(|t| t.asset != 0));
    let first = trades.iter().map(|t| t.entry_time_sec).min().unwrap();
    let mut hour = first;
    while hour < 59 * 3600 {
        let open: Vec<usize> = trades
            .iter()
            .filter(|t| t.entry_time_sec <= hour && hour < t.exit_time_sec)
            .map(|t| t.asset)
            .collect();
        assert_eq!(open.len(), 2, "at {}", hour);
        assert!(open.contains(&1) && open.contains(&2));
        hour += 3600;
    }
    let all = simulate(&series_of(&data), &BacktestArgs { max_positions: 3, ..args }, 0, 59 * HOUR_MS);
    assert_eq!(all.iter().filter(|t| t.entry_time_sec == first).count(), 3);
}
