use funding_scanner::binary64::Binary64;
use funding_scanner::signals::{compute_stats, list_liquidities, Reading};
use funding_scanner::stats::TrendDir;
use funding_scanner::tier::Tier;
use funding_scanner::watch::{
    action_cells, apr_color, build_dashboard, build_risks, candidate_cells, confidence,
    controls, dir_arrow, does_age_fit, does_span_fit, failed_dashboard, head_lines,
    history_seconds, list_candidates, mover_cells, on_key, reading_line, refresh_due,
    score_color, side_color, side_str, stale, status, status_label, std_color, tier_color,
    tier_label, tier_size, top_movers,
};
use funding_scanner::watch::{ConfidenceTier, KeyAction, Status, Tone};

fn of(x: f64) -> Binary64 {
    Binary64 { bits: x.to_bits() }
}

fn num(x: Binary64) -> f64 {
    f64::from_bits(x.bits)
}

fn rows(list: &[(&str, f64, usize, f64)]) -> Vec<Reading> {
    let mut out = Vec::new();
    for (asset, apr, count, volume) in list {
        for i in 0..*count {
            out.push(Reading {
                asset: asset.to_string(),
                apr: of(*apr + (i % 2) as f64),
                volume: of(*volume),
            });
        }
    }
    out
}

fn logs(rows: &Vec<Reading>) -> Vec<Binary64> {
    list_liquidities(rows).into_iter().map(|x| of(num(x).log10())).collect()
}

#[test]
fn labels_sizes_and_colours() {
    let all = [
        ConfidenceTier::Strong,
        ConfidenceTier::Medium,
        ConfidenceTier::Early,
        ConfidenceTier::Weak,
        ConfidenceTier::Trap,
    ];
    let labels: Vec<&str> = all.iter().map(|t| tier_label(*t)).collect();
    assert_eq!(labels, vec!["STRONG", "MEDIUM", "EARLY", "WEAK", "TRAP"]);
    let sizes: Vec<&str> = all.iter().map(|t| tier_size(*t)).collect();
    assert_eq!(sizes, vec!["$150-200", "$80-120", "$30-50", "$10-20", "—"]);
    let tones: Vec<Tone> = all.iter().map(|t| tier_color(*t)).collect();
    assert_eq!(tones, vec![Tone::Green, Tone::Cyan, Tone::Yellow, Tone::Gray, Tone::Red]);
    assert_eq!(confidence(Tier::Strong), ConfidenceTier::Strong);
    assert_eq!(confidence(Tier::Medium), ConfidenceTier::Medium);
    assert_eq!(confidence(Tier::Early), ConfidenceTier::Early);
    assert_eq!(confidence(Tier::Weak), ConfidenceTier::Weak);
    assert_eq!(score_color(of(70.0)), Tone::Green);
    assert_eq!(score_color(of(69.9)), Tone::Yellow);
    assert_eq!(score_color(of(49.9)), Tone::Orange);
    assert_eq!(apr_color(of(-100.1)), Tone::Red);
    assert_eq!(apr_color(of(100.0)), Tone::Yellow);
    assert_eq!(apr_color(of(50.0)), Tone::White);
    assert_eq!(std_color(of(0.0), of(5.0)), Tone::White);
    assert_eq!(std_color(of(-10.0), of(2.9)), Tone::Green);
    assert_eq!(std_color(of(10.0), of(5.0)), Tone::White);
    assert_eq!(std_color(of(10.0), of(7.1)), Tone::Red);
    assert_eq!(side_color(of(0.0)), Tone::Red);
    assert_eq!(side_color(of(-1.0)), Tone::Green);
    assert_eq!(side_str(of(0.0)), "SHORT");
    assert_eq!(side_str(of(-1.0)), "LONG");
    assert_eq!(side_str(of(f64::NAN)), "LONG");
    assert_eq!(dir_arrow(TrendDir::Up), "↑");
    assert_eq!(dir_arrow(TrendDir::Down), "↓");
    assert_eq!(dir_arrow(TrendDir::Flat), "→");
}

#[test]
fn risks_of_a_position() {
    for volume in [499_999.0, 500_000.0] {
        for std in [50.0, 50.1] {
            for count in [11, 12] {
                let mut want = Vec::new();
                if volume < 500_000.0 {
                    want.push("Low volume");
                }
                if std > 50.0 {
                    want.push("High volatility");
                }
                if count < 12 {
                    want.push("New signal");
                }
                let want =
                    if want.is_empty() { "Liquid + stable".to_string() } else { want.join(", ") };
                assert_eq!(build_risks(of(volume), of(std), count), want);
            }
        }
    }
}

#[test]
fn the_largest_movers() {
    let list: Vec<(String, f64)> = (0..20).map(|i| (format!("A{}", i), (i as f64 - 12.0) * 10.0)).collect();
    let input: Vec<(&str, f64, usize, f64)> =
        list.iter().map(|(a, r)| (a.as_str(), *r, 8, 1e6)).collect();
    let readings = rows(&input);
    let stats = compute_stats(&readings);
    let movers = top_movers(&stats);
    assert_eq!(movers.len(), 15);
    let first: Vec<f64> = movers.iter().take(3).map(|m| num(m.apr_now)).collect();
    assert_eq!(first, vec![-120.0, -110.0, -100.0]);
    assert_eq!(
        mover_cells(&movers[0], &readings[movers[0].newest].asset),
        vec!["A0", "-120.00%", "-119.50%", "0%", "→", "$1.00M", "LONG"]
    );
}

#[test]
fn the_dashboard_of_six_hours() {
    let hour = rows(&[("BIG", 260.0, 12, 2e7), ("TRAP", 700.0, 9, 5e5), ("MILD", 60.0, 10, 2e6)]);
    let recent = rows(&[("BIG", 260.0, 72, 2e7), ("TRAP", 700.0, 60, 5e5), ("MILD", 60.0, 43, 2e6), ("FEW", 90.0, 42, 2e6)]);
    let d = build_dashboard(&hour, &recent, &logs(&hour), Some(0), Some(6 * 3600));
    assert_eq!(d.movers.len(), 3);
    assert_eq!(d.actions[0].tier, ConfidenceTier::Trap);
    assert_eq!(d.actions[0].action, "TRAP — possible manipulation");
    assert_eq!(d.actions[0].risks, "APR +700% with vol $500.0k < $1M");
    assert_eq!(action_cells(&d.actions[0])[2], "—");
    assert_eq!(d.actions[1].asset, "BIG");
    assert_eq!(d.actions[1].tier, ConfidenceTier::Strong);
    assert_eq!(
        action_cells(&d.actions[1]),
        vec!["BIG", "SHORT to earn $0.71/day per $100", "100", "STRONG", "$150-200", "Liquid + stable"]
    );
    assert_eq!(d.actions.len(), 3);
    let names: Vec<&str> =
        d.candidates.iter().map(|c| recent[c.newest].asset.as_str()).collect();
    assert_eq!(names, vec!["BIG", "MILD"]);
    let c = d.candidates[1];
    assert_eq!(c.snap_count, 43);
    let (n, sum, squares) = (43.0, 22.0 * 60.0 + 21.0 * 61.0, 22.0 * 3600.0 + 21.0 * 3721.0);
    let avg: f64 = sum / n;
    let std: f64 = (squares / n - avg * avg).sqrt();
    assert_eq!(num(c.score), avg * (1.0 - std / avg));
    assert_eq!(
        candidate_cells(&c, "MILD"),
        vec!["MILD", "+60.49%", "1%", "43", "SHORT", "60.0"]
    );
    assert!(d.section2_msg.is_none() && d.action_msg.is_none() && d.section3_msg.is_none());
}

#[test]
fn notes_in_place_of_sections() {
    let none: Vec<Reading> = Vec::new();
    let d = build_dashboard(&none, &none, &Vec::new(), Some(1000), Some(1000 + 1859));
    assert_eq!(
        d.section2_msg.unwrap(),
        "Need more data: have ~30 min of history, need at least 1h with ≥8 snapshots per asset"
    );
    assert_eq!(d.action_msg.unwrap(), "Need at least 1h of data; currently have ~30 min");
    assert_eq!(
        d.section3_msg.unwrap(),
        "No candidates yet. Persistent analysis needs ≥6h of data, currently have 0.5h"
    );
    let dull = rows(&[("DULL", 1.0, 9, 1.0)]);
    let d = build_dashboard(&dull, &dull, &logs(&dull), Some(0), Some(6 * 3600));
    assert!(d.section2_msg.is_none());
    assert_eq!(d.action_msg.unwrap(), "No action signals match scoring filters yet.");
    assert_eq!(
        d.section3_msg.unwrap(),
        "No persistent candidates matching filters yet. Market may be in transition."
    );
    let f = failed_dashboard();
    assert_eq!(f.section2_msg.unwrap(), "(no data — DB error)");
    assert_eq!(f.action_msg.unwrap(), "(no data — DB error)");
    assert_eq!(f.section3_msg.unwrap(), "(no data — DB error)");
    assert_eq!(history_seconds(None, Some(5)), 0);
    assert!(does_span_fit(Some(0), Some(5)));
    assert!(!does_span_fit(Some(i64::MIN), Some(5)));
}

#[test]
fn candidates_are_high_steady_and_liquid() {
    let count = |apr: f64, n: usize, volume: f64| list_candidates(&rows(&[("X", apr, n, volume)])).len();
    assert_eq!(count(29.0, 43, 1e6), 0);
    assert_eq!(count(29.6, 43, 1e6), 1);
    assert_eq!(count(-31.0, 43, 1e6), 1);
    assert_eq!(count(60.0, 42, 1e6), 0);
    assert_eq!(count(60.0, 43, 999_999.0), 0);
    let mut wild = rows(&[("X", 60.0, 44, 1e6)]);
    for (i, r) in wild.iter_mut().enumerate() {
        r.apr = of(if i % 2 == 0 { 30.0 } else { 90.0 });
    }
    assert!(list_candidates(&wild).is_empty());
}

#[test]
fn whether_the_collector_is_at_work() {
    assert_eq!(status(Some(1000), Some(60), 1120), Status::Collecting);
    assert_eq!(status(Some(1000), Some(60), 1121), Status::Stale(121, 60));
    assert_eq!(status(Some(1000), None, 1600), Status::Collecting);
    assert_eq!(status(Some(1000), None, 1601), Status::Stale(601, 300));
    assert_eq!(status(None, Some(60), 5), Status::NoData);
    assert_eq!(status_label(Status::Collecting), (Tone::Green, "● COLLECTING"));
    assert_eq!(status_label(Status::Stale(1, 2)), (Tone::Yellow, "● STALE"));
    assert_eq!(status_label(Status::NoData), (Tone::Red, "● NO DATA"));
    assert_eq!(stale(601, 300), " (last snapshot 601s ago, expected every 300s)");
    assert!(does_age_fit(Some(5), 10));
    assert!(!does_age_fit(Some(i64::MIN), 10));
    assert!(does_age_fit(None, 10));
}

#[test]
fn lines_of_the_head() {
    assert_eq!(
        head_lines(1_234_567, 42, Some(0), Some(5400), 146, Some(300), 5460),
        vec![
            "DB: ./data/snapshots.db (1.2MB)",
            "Total snapshots: 42",
            "Last snapshot: 1970-01-01 01:30:00 UTC (60s ago)",
            "Snapshot rate: 146 perps / 5min",
            "Uptime tracking: 1.5h of data",
        ]
    );
    let bare = head_lines(0, 0, None, None, 0, None, 7);
    assert_eq!(bare[2], "Last snapshot: none");
    assert_eq!(bare[3], "Snapshot rate: 0 perps / ?");
    assert_eq!(bare[4], "Uptime tracking: -");
    assert_eq!(head_lines(0, 0, None, None, 9, Some(61), 7)[3], "Snapshot rate: 9 perps / 61s");
    assert_eq!(controls(&None, "12:00:00"), "'q' quit | 'r' refresh | Last update: 12:00:00");
    assert_eq!(
        controls(&Some("locked".to_string()), "?"),
        "⚠ DB error: locked | 'q' quit | 'r' refresh | Last update: ?"
    );
}

#[test]
fn the_line_of_the_last_reading() {
    assert_eq!(
        reading_line("2025-10-06 22:00:00 UTC", 60),
        "Last snapshot: 2025-10-06 22:00:00 UTC (60s ago)"
    );
    assert_eq!(reading_line("?", -5), "Last snapshot: ? (-5s ago)");
}

#[test]
fn candidates_score_half_their_mean_or_more() {
    for (low, high) in [(60.0, 60.0), (45.0, 75.0), (31.0, 88.0), (-90.0, -31.0)] {
        let mut list = rows(&[("X", 60.0, 44, 1e6)]);
        for (i, r) in list.iter_mut().enumerate() {
            r.apr = of(if i % 2 == 0 { low } else { high });
        }
        let found = list_candidates(&list);
        assert_eq!(found.len(), 1);
        let mean = num(found[0].avg_apr).abs();
        assert!(num(found[0].score) >= mean * 0.5);
        assert!(num(found[0].score) <= mean);
    }
}

#[test]
fn what_keys_do() {
    assert_eq!(on_key(true, Some('q'), false), KeyAction::Quit);
    assert_eq!(on_key(true, Some('q'), true), KeyAction::Quit);
    assert_eq!(on_key(true, Some('c'), true), KeyAction::Quit);
    assert_eq!(on_key(true, Some('c'), false), KeyAction::Nothing);
    assert_eq!(on_key(true, Some('r'), false), KeyAction::Refresh);
    assert_eq!(on_key(true, None, true), KeyAction::Nothing);
    assert_eq!(on_key(false, Some('q'), false), KeyAction::Skip);
    assert!(refresh_due(5000));
    assert!(!refresh_due(4999));
}
