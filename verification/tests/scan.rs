use funding_scanner::binary64::Binary64;
use funding_scanner::scan::{
    are_sortable, build_rows, collect_start, filter_persistent, is_persistent, min_snapshots,
    mismatch, persistent_cells, persistent_head, rank_rows, remaining, saved, scan_cells, shown,
    std_apr, window_start, AssetCtx, AssetMeta, PersistentRow,
};

fn of(x: f64) -> Binary64 {
    Binary64 { bits: x.to_bits() }
}

fn num(x: Binary64) -> f64 {
    f64::from_bits(x.bits)
}

fn meta(name: &str, delisted: bool) -> AssetMeta {
    AssetMeta { name: name.to_string(), max_leverage: 20, delisted }
}

fn ctx(funding: f64, volume: f64) -> AssetCtx {
    AssetCtx {
        funding: Some(of(funding)),
        open_interest: Some(of(1500.0)),
        day_ntl_vlm: Some(of(volume)),
        mark_px: Some(of(2.5)),
    }
}

#[test]
fn liquid_assets_by_rate() {
    let metas = vec![
        meta("A", false),
        meta("GONE", true),
        meta("B", false),
        meta("THIN", false),
        meta("BAD", false),
        meta("C", false),
    ];
    let ctxs = vec![
        ctx(0.00001, 200_000.0),
        ctx(0.01, 9e9),
        ctx(-0.0001, 100_000.1),
        ctx(0.5, 100_000.0),
        AssetCtx { mark_px: None, ..ctx(0.5, 9e9) },
        ctx(0.0001, 5e8),
    ];
    let rows = build_rows(&metas, &ctxs).unwrap();
    assert!(are_sortable(&rows));
    let ranked = rank_rows(&rows);
    let names: Vec<&str> = ranked.iter().map(|r| metas[r.place].name.as_str()).collect();
    assert_eq!(names, vec!["B", "C", "A"]);
    assert_eq!(num(ranked[0].funding_apr), -0.0001 * 24.0 * 365.0 * 100.0);
    assert_eq!(num(ranked[0].open_interest_usd), 1500.0 * 2.5);
    assert_eq!(
        scan_cells(1, &ranked[0], "B"),
        vec!["1", "B", "2.5000", "-0.01000", "-87.60", "$3.8k", "$100.0k", "20x"]
    );
    assert_eq!(shown(147), 20);
    assert_eq!(shown(3), 3);
}

#[test]
fn lengths_that_do_not_match() {
    let e = build_rows(&vec![meta("A", false)], &Vec::new()).unwrap_err();
    assert_eq!((e.universe, e.ctxs), (1, 0));
    assert_eq!(mismatch(&e), "длина universe (1) != длина ctxs (0)");
}

#[test]
fn rates_without_a_value_are_found() {
    let metas = vec![meta("A", false), meta("B", false)];
    let rows = build_rows(&metas, &vec![ctx(f64::NAN, 1e6), ctx(0.1, 1e6)]).unwrap();
    assert!(!are_sortable(&rows));
    let one = build_rows(&metas, &vec![ctx(f64::NAN, 1e6), ctx(0.1, 0.0)]).unwrap();
    assert!(are_sortable(&one));
    assert_eq!(rank_rows(&one).len(), 1);
}

#[test]
fn sixty_percent_of_the_readings() {
    assert_eq!(min_snapshots(1), 8);
    assert_eq!(min_snapshots(6), 44);
    assert_eq!(min_snapshots(0), 0);
    for hours in (0..2000).chain([99_999, 12_345_678, u32::MAX - 1, u32::MAX]) {
        let expected = hours as i64 * 12;
        assert_eq!(min_snapshots(hours), (expected as f64 * 0.6).ceil() as i64);
    }
    assert_eq!(window_start(10_000, 2), 10_000 - 7200);
}

fn row(avg: f64, square: f64, count: i64, volume: f64) -> PersistentRow {
    PersistentRow {
        place: 0,
        avg_apr: of(avg),
        avg_apr_sq: of(square),
        last_apr: of(avg + 1.0),
        snap_count: count,
        last_ts: 0,
        day_volume_usd: of(volume),
        mark_price: of(1.23456),
        max_leverage: 50,
    }
}

#[test]
fn rates_that_last() {
    let ok = |r: &PersistentRow| is_persistent(r, 44, of(50.0));
    assert!(ok(&row(60.0, 3600.0, 44, 1e6)));
    assert!(ok(&row(-60.0, 3601.0, 44, 1e6)));
    assert!(!ok(&row(60.0, 3600.0, 43, 1e6)));
    assert!(!ok(&row(49.0, 2401.0, 44, 1e6)));
    assert!(!ok(&row(60.0, 3600.0 + 324.0, 44, 1e6)));
    assert!(!ok(&row(60.0, 3600.0, 44, 999_999.0)));
    assert_eq!(num(std_apr(&row(60.0, 3604.0, 44, 1e6))), 2.0);
    assert_eq!(num(std_apr(&row(60.0, 3599.0, 44, 1e6))), 0.0);
    let kept = filter_persistent(
        &vec![row(60.0, 3600.0, 44, 1e6), row(10.0, 100.0, 44, 1e6), row(-70.0, 4900.0, 72, 2e6)],
        6,
        of(50.0),
    );
    let rates: Vec<f64> = kept.iter().map(|r| num(r.avg_apr)).collect();
    assert_eq!(rates, vec![60.0, -70.0]);
    assert_eq!(
        persistent_cells(2, &kept[1], "X", "12:34:56"),
        vec!["2", "X", "-70.00", "0.00", "-69.00", "72", "12:34:56", "1.2346", "$2.00M", "50x"]
    );
    assert_eq!(
        persistent_head(6, of(30.0), 44),
        "window=6h, min |avg APR|=30%, min snapshots=44, std/|avg| < 0.30, last vol > $1M"
    );
}

#[test]
fn the_collection() {
    assert_eq!(remaining(300, 120), Some(180));
    assert_eq!(remaining(300, 300), None);
    assert_eq!(remaining(300, 301), None);
    assert_eq!(
        collect_start(300),
        "Starting collect mode, interval: 300s, db: ./data/snapshots.db"
    );
    assert_eq!(
        saved(146, 1_234_567, 42_000),
        "Saved 146 snapshots, db size: 1.2MB, total snapshots: 42000"
    );
}
