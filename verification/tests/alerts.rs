use funding_scanner::alerts::{
    trackable, transition, AlertEvent, AlertKind, AlertState, Decision, COOLDOWN, FLIPFLOP_WINDOW,
    MUTE_DURATION, POLL_SECONDS,
};
use funding_scanner::binary64::Binary64;
use funding_scanner::messages::{
    alert_note, count_tiers, event_kind_str, has_channel, mute_note, render_event, side_label,
    startup_note, tick_note, tier_size_pct, yield_of,
};
use funding_scanner::monitor::Monitor;
use funding_scanner::signals::{
    cadence, classify_live, compute_signals, compute_stats, do_times_fit, interval, is_trap,
    list_liquidities, signal_of, Reading, Signal, SignalData,
};
use funding_scanner::stats::TrendDir;
use funding_scanner::tier::Tier;

const MINUTE: u64 = 60_000_000_000;

fn of(x: f64) -> Binary64 {
    Binary64 { bits: x.to_bits() }
}

fn num(x: Binary64) -> f64 {
    f64::from_bits(x.bits)
}

fn data(tier: Tier) -> SignalData {
    SignalData {
        tier,
        score: of(71.6),
        apr_now: of(-365.0),
        std_pct: of(12.4),
        volume_24h: of(2_500_000.0),
        history_h: of(5.25),
    }
}

fn signals(list: &[(&str, Tier)]) -> Vec<Signal> {
    list.iter().map(|(a, t)| Signal { asset: a.to_string(), data: data(*t) }).collect()
}

fn kinds(events: &[AlertEvent]) -> Vec<(String, AlertKind)> {
    events.iter().map(|e| (e.asset.clone(), e.kind)).collect()
}

fn name(s: &str) -> String {
    s.to_string()
}

#[test]
fn what_a_change_is_told_as() {
    let s = Tier::Strong;
    let m = Tier::Medium;
    let e = Tier::Early;
    let w = Tier::Weak;
    assert_eq!(transition(None, s), Some(AlertKind::NewSignal));
    assert_eq!(transition(None, m), Some(AlertKind::NewSignal));
    assert_eq!(transition(None, e), None);
    assert_eq!(transition(None, w), None);
    assert_eq!(transition(Some(e), m), Some(AlertKind::TierUp));
    assert_eq!(transition(Some(e), s), Some(AlertKind::TierUp));
    assert_eq!(transition(Some(m), s), Some(AlertKind::TierUp));
    assert_eq!(transition(Some(s), m), Some(AlertKind::TierDown));
    assert_eq!(transition(Some(s), e), Some(AlertKind::TierDown));
    assert_eq!(transition(Some(m), e), Some(AlertKind::TierDown));
    assert_eq!(transition(Some(w), s), Some(AlertKind::NewSignal));
    assert_eq!(transition(Some(w), m), Some(AlertKind::NewSignal));
    assert_eq!(transition(Some(w), e), None);
    assert_eq!(transition(Some(s), w), Some(AlertKind::SignalLost));
    assert_eq!(transition(Some(e), w), Some(AlertKind::SignalLost));
    for t in [s, m, e, w] {
        assert_eq!(transition(Some(t), t), None);
    }
    assert!(trackable(s) && trackable(m) && trackable(e) && !trackable(w));
    assert_eq!(event_kind_str(&AlertKind::NewSignal), "NEW");
    assert_eq!(event_kind_str(&AlertKind::TierUp), "UP");
    assert_eq!(event_kind_str(&AlertKind::TierDown), "DOWN");
    assert_eq!(event_kind_str(&AlertKind::SignalLost), "LOST");
    assert_eq!(POLL_SECONDS, 60);
}

#[test]
fn changes_between_two_looks() {
    let mut state = AlertState::new();
    assert_eq!(state.tier_of(&name("A")), None);
    state.commit(&signals(&[
        ("A", Tier::Strong),
        ("B", Tier::Early),
        ("C", Tier::Weak),
        ("D", Tier::Medium),
    ]));
    assert_eq!(state.tier_of(&name("A")), Some(Tier::Strong));
    let now = signals(&[
        ("E", Tier::Medium),
        ("B", Tier::Medium),
        ("F", Tier::Early),
        ("A", Tier::Medium),
    ]);
    let events = state.diff(&now, MINUTE);
    assert_eq!(
        kinds(&events),
        vec![
            (name("E"), AlertKind::NewSignal),
            (name("B"), AlertKind::TierUp),
            (name("A"), AlertKind::TierDown),
            (name("D"), AlertKind::SignalLost),
        ]
    );
    assert!(events[3].signal.is_none());
    assert_eq!(events[3].prev_tier, Some(Tier::Medium));
    assert_eq!(events[0].prev_tier, None);
    state.commit(&now);
    assert_eq!(state.tier_of(&name("D")), None);
    assert_eq!(state.tier_of(&name("F")), Some(Tier::Early));
    assert!(state.diff(&now, 2 * MINUTE).is_empty());
}

#[test]
fn half_an_hour_between_two_messages() {
    let mut state = AlertState::new();
    let a = name("A");
    assert!(state.check_and_consume(&a, 5));
    state.mark_sent(&a, 5);
    assert_eq!(state.decide(&a, 5 + COOLDOWN - 1), Decision::Cooling);
    assert!(!state.check_and_consume(&a, 5 + COOLDOWN - 1));
    assert!(state.check_and_consume(&a, 5 + COOLDOWN));
    assert!(state.check_and_consume(&name("B"), 6));
    assert_eq!(COOLDOWN, 30 * MINUTE);
}

#[test]
fn three_changes_mute_an_asset_for_an_hour() {
    let mut state = AlertState::new();
    let a = name("A");
    state.record_change(&a, 0);
    state.record_change(&a, MINUTE);
    assert!(state.check_and_consume(&a, MINUTE));
    state.record_change(&a, 2 * MINUTE);
    assert_eq!(state.decide(&a, 2 * MINUTE), Decision::Unstable(3));
    assert!(!state.check_and_consume(&a, 2 * MINUTE));
    assert_eq!(state.decide(&a, 3 * MINUTE), Decision::Muted);
    assert_eq!(state.decide(&a, 2 * MINUTE + MUTE_DURATION - 1), Decision::Muted);
    assert_eq!(state.decide(&a, 2 * MINUTE + MUTE_DURATION), Decision::Send);
    state.record_change(&a, 2 * MINUTE + MUTE_DURATION);
    assert!(state.check_and_consume(&a, 2 * MINUTE + MUTE_DURATION));
    assert_eq!(MUTE_DURATION, 60 * MINUTE);
}

#[test]
fn changes_of_more_than_ten_minutes_ago_are_forgiven() {
    let mut state = AlertState::new();
    let a = name("A");
    for t in [0, 1, 2] {
        state.record_change(&a, t);
    }
    assert_eq!(state.decide(&a, FLIPFLOP_WINDOW - 1), Decision::Unstable(3));
    assert_eq!(state.decide(&a, FLIPFLOP_WINDOW), Decision::Send);
    assert!(state.check_and_consume(&a, 2 + FLIPFLOP_WINDOW));
    assert_eq!(state.decide(&a, 3 + FLIPFLOP_WINDOW), Decision::Send);
}

#[test]
fn what_events_to_and_from_a_weak_signal_carry() {
    let mut state = AlertState::new();
    state.commit(&signals(&[("UP", Tier::Weak), ("DOWN", Tier::Strong), ("MID", Tier::Early)]));
    let now = signals(&[("UP", Tier::Medium), ("DOWN", Tier::Weak), ("MID", Tier::Medium)]);
    let events = state.diff(&now, MINUTE);
    assert_eq!(
        kinds(&events),
        vec![
            (name("UP"), AlertKind::NewSignal),
            (name("DOWN"), AlertKind::SignalLost),
            (name("MID"), AlertKind::TierUp),
        ]
    );
    assert_eq!(events[0].prev_tier, None);
    assert_eq!(events[0].signal.map(|d| d.tier), Some(Tier::Medium));
    assert_eq!(events[1].prev_tier, Some(Tier::Strong));
    assert!(events[1].signal.is_none());
    assert_eq!(events[2].prev_tier, Some(Tier::Early));
    assert_eq!(events[2].signal.map(|d| d.tier), Some(Tier::Medium));
    assert_eq!(
        render_event(&events[1]),
        "❌ SIGNAL LOST (was STRONG)\nAsset: DOWN\nSignal dropped from action list."
    );
}

#[test]
fn old_changes_do_not_count() {
    let mut state = AlertState::new();
    let a = name("A");
    state.record_change(&a, 0);
    state.record_change(&a, 1);
    state.record_change(&a, FLIPFLOP_WINDOW);
    assert_eq!(state.decide(&a, FLIPFLOP_WINDOW), Decision::Send);
    state.record_change(&a, FLIPFLOP_WINDOW + 1);
    assert_eq!(state.decide(&a, FLIPFLOP_WINDOW + 1), Decision::Send);
    assert!(state.check_and_consume(&a, FLIPFLOP_WINDOW + 1));
    state.record_change(&a, FLIPFLOP_WINDOW + 2);
    assert_eq!(state.decide(&a, FLIPFLOP_WINDOW + 2), Decision::Unstable(3));
    assert_eq!(FLIPFLOP_WINDOW, 10 * MINUTE);
}

#[test]
fn a_flip_flop_over_several_looks() {
    let mut state = AlertState::new();
    let up = signals(&[("A", Tier::Strong)]);
    let down = signals(&[("A", Tier::Medium)]);
    state.commit(&down);
    let mut sent = 0;
    for i in 1..=6u64 {
        let now = if i % 2 == 1 { &up } else { &down };
        let t = i * MINUTE;
        for e in state.diff(now, t) {
            if state.check_and_consume(&e.asset, t) {
                state.mark_sent(&e.asset, t);
                sent += 1;
            }
        }
        state.commit(now);
    }
    assert_eq!(sent, 1);
    assert_eq!(state.decide(&name("A"), 7 * MINUTE), Decision::Cooling);
    let later = 31 * MINUTE;
    assert_eq!(state.diff(&up, later).len(), 1);
    assert_eq!(state.decide(&name("A"), later), Decision::Send);
}

#[test]
fn the_first_look_tells_nothing() {
    let mut monitor = Monitor::new();
    let first = signals(&[("A", Tier::Strong), ("B", Tier::Weak)]);
    assert!(monitor.look(&first, MINUTE).is_none());
    assert_eq!(monitor.state.tier_of(&name("A")), Some(Tier::Strong));
    let mut other = Monitor::new();
    assert!(other.look(&first, MINUTE).is_none());
    other.state.record_change(&name("A"), MINUTE);
    other.state.record_change(&name("A"), MINUTE);
    assert_eq!(other.state.decide(&name("A"), MINUTE), Decision::Send);
    assert_eq!(monitor.look(&first, 2 * MINUTE).map(|e| e.len()), Some(0));
    let second = signals(&[("B", Tier::Medium)]);
    let events = monitor.look(&second, 3 * MINUTE).unwrap();
    assert_eq!(
        kinds(&events),
        vec![(name("B"), AlertKind::NewSignal), (name("A"), AlertKind::SignalLost)]
    );
    assert_eq!(monitor.state.tier_of(&name("A")), None);
    assert_eq!(monitor.state.tier_of(&name("B")), Some(Tier::Medium));
    assert_eq!(monitor.look(&second, 4 * MINUTE).map(|e| e.len()), Some(0));
}

#[test]
fn an_empty_first_look_is_a_first_look() {
    let mut monitor = Monitor::new();
    assert!(monitor.look(&signals(&[]), 0).is_none());
    let events = monitor.look(&signals(&[("A", Tier::Strong)]), MINUTE).unwrap();
    assert_eq!(kinds(&events), vec![(name("A"), AlertKind::NewSignal)]);
}

#[test]
fn messages_on_events() {
    let event = AlertEvent {
        asset: name("ETH"),
        kind: AlertKind::TierUp,
        signal: Some(data(Tier::Strong)),
        prev_tier: Some(Tier::Medium),
    };
    assert_eq!(
        render_event(&event),
        "📈 TIER UP: MEDIUM → STRONG\nAsset: ETH\nAction: LONG to earn $1.00/day per $100\nScore: 72/100\nConfidence: STRONG (5.2h data, std 12%)\nVolume 24h: $2.50M\nRecommended size: 15-20% of capital\n\n⚠️ Educational signal only. Verify before trading."
    );
    assert_eq!(
        alert_note(&event),
        "alert UP: ETH (prev=Some(\"MEDIUM\"), new=Some(\"STRONG\"))"
    );
    let lost = AlertEvent {
        asset: name("ETH"),
        kind: AlertKind::SignalLost,
        signal: None,
        prev_tier: Some(Tier::Early),
    };
    assert_eq!(
        render_event(&lost),
        "❌ SIGNAL LOST (was EARLY)\nAsset: ETH\nSignal dropped from action list."
    );
    assert_eq!(alert_note(&lost), "alert LOST: ETH (prev=Some(\"EARLY\"), new=None)");
    let header = |kind, prev_tier, signal| {
        let e = AlertEvent { asset: name("X"), kind, signal, prev_tier };
        render_event(&e).lines().next().unwrap().to_string()
    };
    assert_eq!(
        header(AlertKind::NewSignal, None, Some(data(Tier::Medium))),
        "🆕 NEW MEDIUM SIGNAL"
    );
    assert_eq!(
        header(AlertKind::TierDown, Some(Tier::Strong), Some(data(Tier::Early))),
        "📉 TIER DOWN: STRONG → EARLY"
    );
    assert_eq!(
        header(AlertKind::SignalLost, Some(Tier::Strong), None),
        "❌ SIGNAL LOST (was STRONG)"
    );
    assert_eq!(header(AlertKind::TierUp, None, None), "ALERT");
}

#[test]
fn notes_of_the_monitor() {
    let list = signals(&[
        ("A", Tier::Strong),
        ("B", Tier::Weak),
        ("C", Tier::Early),
        ("D", Tier::Weak),
        ("E", Tier::Medium),
    ]);
    let c = count_tiers(&list);
    assert_eq!((c.strong, c.medium, c.early, c.weak), (1, 1, 1, 2));
    assert_eq!(
        startup_note(5, &c),
        "🟢 Alert monitor started, tracking 5 assets, current tiers: STRONG=1, MEDIUM=1, EARLY=1"
    );
    assert_eq!(tick_note(5, &c), "tick: 5 signals (S=1, M=1, E=1, W=2)");
    assert_eq!(
        mute_note("DOGE", 4),
        "Muted DOGE due to instability (4 changes in last 10min)"
    );
    assert_eq!(tier_size_pct(Tier::Strong), "15-20%");
    assert_eq!(tier_size_pct(Tier::Medium), "8-12%");
    assert_eq!(tier_size_pct(Tier::Early), "3-5%");
    assert_eq!(tier_size_pct(Tier::Weak), "1-2%");
    assert_eq!(side_label(of(-0.1)), "LONG");
    assert_eq!(side_label(of(0.0)), "SHORT");
    assert_eq!(num(yield_of(of(-73.0))), 73.0 / 365.0);
    assert!(has_channel(&Some(name("t")), &Some(name("c"))));
    assert!(!has_channel(&Some(name("")), &Some(name("c"))));
    assert!(!has_channel(&Some(name("t")), &Some(name(""))));
    assert!(!has_channel(&None, &Some(name("c"))));
}

fn readings(list: &[(&str, &[f64], f64)]) -> Vec<Reading> {
    let mut out = Vec::new();
    for (asset, aprs, volume) in list {
        for (i, apr) in aprs.iter().enumerate() {
            out.push(Reading {
                asset: asset.to_string(),
                apr: of(*apr),
                volume: of(*volume + i as f64),
            });
        }
    }
    out
}

fn logs(rows: &Vec<Reading>) -> Vec<Binary64> {
    list_liquidities(rows).into_iter().map(|x| of(num(x).log10())).collect()
}

#[test]
fn statistics_of_an_hour() {
    let up = [300.0, 290.0, 280.0, 300.0, 310.0, 305.0, 295.0, 290.0];
    let rows = readings(&[("A", &up[..7], 1e6), ("B", &up, 2e6), ("C", &[1.0; 9], 5e4)]);
    let stats = compute_stats(&rows);
    assert_eq!(stats.len(), 2);
    let b = stats[0];
    assert_eq!((b.group, b.newest), (1, 7));
    assert_eq!(num(b.apr_now), 300.0);
    let avg = up.iter().sum::<f64>() / 8.0;
    let std = (up.iter().map(|x| x * x).sum::<f64>() / 8.0 - avg * avg).max(0.0).sqrt();
    assert_eq!(num(b.avg), avg);
    assert_eq!(num(b.std), std);
    assert_eq!(num(b.std_pct), 100.0 * std / avg.abs());
    assert_eq!(b.direction, TrendDir::Up);
    assert_eq!(num(b.volume_24h), 2e6);
    assert_eq!(stats[1].direction, TrendDir::Flat);
    let liquid: Vec<f64> = list_liquidities(&rows).into_iter().map(num).collect();
    assert_eq!(liquid, vec![10.0, 20.0, 1.0]);
}

#[test]
fn signals_of_an_hour() {
    let rows = readings(&[
        ("LOW", &[5.0; 8], 2e5),
        ("TRAP", &[600.0; 8], 9e5),
        ("BIG", &[260.0; 8], 2e7),
        ("WILD", &[260.0, -260.0, 260.0, -260.0, 260.0, -260.0, 260.0, 300.0], 2e7),
        ("FEW", &[260.0; 7], 2e7),
    ]);
    let recent: Vec<String> = std::iter::repeat("BIG")
        .take(43)
        .chain(std::iter::repeat("LOW").take(50))
        .map(|s| s.to_string())
        .collect();
    let got = compute_signals(&rows, &recent, 300, &logs(&rows));
    assert_eq!(got.len(), 2);
    assert_eq!(got[0].asset, "LOW");
    assert_eq!(got[0].data.tier, Tier::Weak);
    assert_eq!(got[1].asset, "BIG");
    let d = got[1].data;
    assert_eq!(d.tier, Tier::Strong);
    assert_eq!(num(d.score), 100.0);
    assert_eq!(num(d.history_h), 43.0 * 300.0 / 3600.0);
    assert_eq!(num(d.volume_24h), 2e7);
    let stats = compute_stats(&rows);
    assert!(signal_of(&stats[1], 100, 300, &logs(&rows)).is_none());
}

#[test]
fn live_tiers_at_their_edges() {
    let tier = |score: f64, std: f64, count: usize| classify_live(of(score), of(std), count);
    assert_eq!(tier(71.0, 29.0, 43), Some(Tier::Strong));
    assert_eq!(tier(71.0, 29.0, 42), Some(Tier::Medium));
    assert_eq!(tier(51.0, 49.0, 14), Some(Tier::Medium));
    assert_eq!(tier(51.0, 49.0, 13), Some(Tier::Early));
    assert_eq!(tier(41.0, 69.0, 4), Some(Tier::Early));
    assert_eq!(tier(41.0, 69.0, 3), Some(Tier::Weak));
    assert_eq!(tier(30.0, 1.0, 72), None);
    assert!(is_trap(of(-500.1), of(999_999.0)));
    assert!(!is_trap(of(500.0), of(1.0)));
    assert!(!is_trap(of(501.0), of(1_000_000.0)));
}

#[test]
fn the_time_between_readings() {
    assert_eq!(interval(&vec![1000, 700]), Some(300));
    assert_eq!(interval(&vec![700, 1000]), Some(300));
    assert_eq!(interval(&vec![700]), None);
    assert_eq!(cadence(&vec![1000, 940]), 60);
    assert_eq!(cadence(&vec![1000, 1000]), 1);
    assert_eq!(cadence(&Vec::new()), 300);
    assert!(do_times_fit(&vec![5, 4]));
    assert!(!do_times_fit(&vec![i64::MAX, i64::MIN]));
    assert!(do_times_fit(&vec![i64::MAX]));
}
