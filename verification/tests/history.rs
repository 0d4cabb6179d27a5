use funding_scanner::backtest::is_in_time_order;
use funding_scanner::binary64::Binary64;
use funding_scanner::grouping::{count_of, group_by_name, is_listed};
use funding_scanner::history::{
    after_failure, download_end, download_progress, download_start, liquidity_of, load_series,
    page_after, period_start, plan_fetch, retry_note, tells_progress, HistoryRow, Retry, VolumeRow,
    DAY_MS, PAGE,
};
use funding_scanner::order::{
    by_falling_value, by_rising_time, descending_order, index_of_best, index_of_least,
};

fn of(x: f64) -> Binary64 {
    Binary64 { bits: x.to_bits() }
}

fn num(x: Binary64) -> f64 {
    f64::from_bits(x.bits)
}

fn strings(names: &[&str]) -> Vec<String> {
    names.iter().map(|s| s.to_string()).collect()
}

#[test]
fn the_start_of_a_period() {
    assert_eq!(period_start(1_700_000_000_000, 30), 1_700_000_000_000 - 30 * DAY_MS);
    assert_eq!(period_start(5, 0), 5);
}

#[test]
fn only_what_is_missing_is_asked_for() {
    assert_eq!(plan_fetch(None, 100, 200), Some(100));
    assert_eq!(plan_fetch(Some(150), 100, 200), Some(151));
    assert_eq!(plan_fetch(Some(50), 100, 200), Some(100));
    assert_eq!(plan_fetch(Some(199), 100, 200), None);
    assert_eq!(plan_fetch(Some(198), 100, 200), Some(199));
    assert_eq!(plan_fetch(None, 200, 200), None);
}

#[test]
fn pages_until_one_is_not_full() {
    let full: Vec<i64> = (0..PAGE as i64).map(|i| 1000 + (i * 7) % 500).collect();
    assert_eq!(page_after(&full, 10_000), Some(1500));
    assert_eq!(page_after(&full, 1501), Some(1500));
    assert_eq!(page_after(&full, 1500), None);
    assert_eq!(page_after(&full[1..].to_vec(), 10_000), None);
    assert_eq!(page_after(&Vec::new(), 10_000), None);
    let last: Vec<i64> = vec![i64::MAX; PAGE];
    assert_eq!(page_after(&last, i64::MAX), None);
}

#[test]
fn waits_between_attempts() {
    assert_eq!(after_failure(0), Retry { wait_ms: 1000, again: true });
    assert_eq!(after_failure(1), Retry { wait_ms: 2000, again: true });
    assert_eq!(after_failure(2), Retry { wait_ms: 4000, again: false });
}

#[test]
fn progress_of_a_download() {
    let told: Vec<usize> = (0..35).filter(|i| tells_progress(*i)).collect();
    assert_eq!(told, vec![9, 19, 29]);
    assert_eq!(
        download_start(50, 0, 30 * DAY_MS + 5),
        "Downloading historical funding: 50 coins, period 30 days..."
    );
    assert_eq!(download_progress(10, 50, 720), "  ... 10/50 coins, +720 entries so far");
    assert_eq!(
        download_end(12, 3),
        "Download done: 12 new entries inserted, 3 coins already up-to-date"
    );
    assert_eq!(retry_note(0, "BTC", "http send"), "  retry 1/3 for BTC: http send");
}

#[test]
fn rows_become_series() {
    let rows: Vec<HistoryRow> = [
        ("A", 1, 0.1),
        ("A", 2, 0.2),
        ("B", 1, 0.3),
        ("C", 0, 0.4),
        ("C", 5, 0.5),
        ("A", 9, 0.6),
    ]
    .iter()
    .map(|(c, t, r)| HistoryRow { coin: c.to_string(), time_ms: *t, rate: of(*r) })
    .collect();
    let series = load_series(&rows, &strings(&["C", "A", "Z"]));
    assert_eq!(series.len(), 2);
    assert_eq!(series[0].coin, "A");
    let a: Vec<(i64, f64)> = series[0].points.iter().map(|p| (p.time_ms, num(p.rate))).collect();
    assert_eq!(a, vec![(1, 0.1), (2, 0.2), (9, 0.6)]);
    assert_eq!(series[1].coin, "C");
    assert_eq!(series[1].points.len(), 2);
    assert!(series.iter().all(|s| is_in_time_order(&s.points)));
    assert!(load_series(&rows, &Vec::new()).is_empty());
    assert!(load_series(&Vec::new(), &strings(&["A"])).is_empty());
}

#[test]
fn the_liquidity_of_a_coin() {
    let rows: Vec<VolumeRow> = [("A", 5_000_000.0), ("B", 7.0), ("A", 2_000_000.0)]
        .iter()
        .map(|(a, v)| VolumeRow { asset: a.to_string(), volume: of(*v) })
        .collect();
    let wanted = strings(&["A", "B", "X"]);
    assert_eq!(num(liquidity_of(&rows, &wanted, &"A".to_string())), 20.0);
    assert_eq!(num(liquidity_of(&rows, &wanted, &"B".to_string())), 1.0);
    assert_eq!(num(liquidity_of(&rows, &wanted, &"X".to_string())), 1.0);
    assert_eq!(num(liquidity_of(&rows, &strings(&["B"]), &"A".to_string())), 1.0);
}

#[test]
fn rows_by_name() {
    let names = strings(&["x", "y", "x", "z", "y", "x"]);
    let groups = group_by_name(&names);
    let got: Vec<(String, Vec<usize>)> =
        groups.into_iter().map(|g| (g.name, g.members)).collect();
    assert_eq!(
        got,
        vec![
            ("x".to_string(), vec![0, 2, 5]),
            ("y".to_string(), vec![1, 4]),
            ("z".to_string(), vec![3])
        ]
    );
    assert_eq!(count_of(&names, &"y".to_string()), 2);
    assert_eq!(count_of(&names, &"q".to_string()), 0);
    assert!(is_listed(&names, &"z".to_string()));
    assert!(!is_listed(&names, &"q".to_string()));
}

#[test]
fn stable_orders() {
    assert_eq!(descending_order(&vec![5, 9, 5, 1, 9]), vec![1, 4, 0, 2, 3]);
    let xs: Vec<Binary64> =
        [1.0, f64::NAN, -0.0, 0.0, f64::INFINITY, -7.5, 1.0].iter().map(|x| of(*x)).collect();
    assert_eq!(by_falling_value(&xs), vec![4, 0, 6, 2, 3, 5, 1]);
    assert_eq!(by_rising_time(&vec![3, i64::MIN, i64::MAX, 3, 0]), vec![1, 4, 0, 3, 2]);
    let ys: Vec<Binary64> = [2.0, 5.0, 5.0, -1.0, -1.0].iter().map(|x| of(*x)).collect();
    assert_eq!(index_of_best(&ys), 2);
    assert_eq!(index_of_least(&ys), 3);
}
