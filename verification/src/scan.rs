//! The scan of the market, the collection of readings, and the assets whose rate lasts.

use crate::backtest::{annualized, apr_of};
use crate::binary64::Binary64;
use crate::decimal::{
    append_decimal, append_fixed, append_signed, decimal, fixed, signed_decimal, text, texts,
};
use crate::order::{by_falling_value, descending, double_keys};
use crate::stats::{deviation, population_deviation};
use crate::summary::least;
use crate::util::{bytes_text, format_bytes, format_usd, usd_text};
use vstd::prelude::*;
use vstd::string::*;

verus! {

/// What the exchange says of an asset once and for all.
pub struct AssetMeta {
    pub name: String,
    pub max_leverage: u32,
    pub delisted: bool,
}

/// What the exchange says of an asset now. A figure that could not be read is missing.
#[derive(Clone, Copy, Debug)]
pub struct AssetCtx {
    /// The fraction of a position that one hour costs.
    pub funding: Option<Binary64>,
    /// In units of the asset.
    pub open_interest: Option<Binary64>,
    /// The volume of a day in dollars.
    pub day_ntl_vlm: Option<Binary64>,
    pub mark_px: Option<Binary64>,
}

/// An asset of a scan.
#[derive(Clone, Copy, Debug)]
pub struct ScanRow {
    /// The asset, by its place in the universe.
    pub place: usize,
    pub max_leverage: u32,
    pub mark_px: Binary64,
    pub funding_hourly: Binary64,
    /// In percent per year.
    pub funding_apr: Binary64,
    pub open_interest_usd: Binary64,
    pub day_volume_usd: Binary64,
}

/// The universe and the figures do not belong together.
#[derive(Clone, Copy, Debug, PartialEq, Eq, Structural)]
pub struct LengthMismatch {
    pub universe: usize,
    pub ctxs: usize,
}

/// The row of an asset; none where it is delisted, a figure is missing, or its volume is not above
/// a hundred thousand dollars.
pub open spec fn row_spec(place: int, meta: AssetMeta, ctx: AssetCtx) -> Option<ScanRow> {
    match (ctx.funding, ctx.open_interest, ctx.day_ntl_vlm, ctx.mark_px) {
        (Some(funding), Some(interest), Some(volume), Some(mark)) => if !meta.delisted
            && volume.above(100_000) {
            Some(
                ScanRow {
                    place: place as usize,
                    max_leverage: meta.max_leverage,
                    mark_px: mark,
                    funding_hourly: funding,
                    funding_apr: apr_of(funding),
                    open_interest_usd: interest.times_spec(mark),
                    day_volume_usd: volume,
                },
            )
        } else {
            None
        },
        _ => None,
    }
}

/// The rows of the first `n` assets.
pub open spec fn rows_until(metas: Seq<AssetMeta>, ctxs: Seq<AssetCtx>, n: nat) -> Seq<ScanRow>
    decreases n,
{
    if n == 0 {
        Seq::empty()
    } else {
        let before = rows_until(metas, ctxs, (n - 1) as nat);
        match row_spec(n - 1, metas[n - 1], ctxs[n - 1]) {
            Some(row) => before.push(row),
            None => before,
        }
    }
}

fn row(place: usize, meta: &AssetMeta, ctx: &AssetCtx) -> (r: Option<ScanRow>)
    ensures
        r == row_spec(place as int, *meta, *ctx),
{
    match (ctx.funding, ctx.open_interest, ctx.day_ntl_vlm, ctx.mark_px) {
        (Some(funding), Some(interest), Some(volume), Some(mark)) => if !meta.delisted
            && volume.is_above(100_000) {
            Some(
                ScanRow {
                    place,
                    max_leverage: meta.max_leverage,
                    mark_px: mark,
                    funding_hourly: funding,
                    funding_apr: annualized(funding),
                    open_interest_usd: interest.times(mark),
                    day_volume_usd: volume,
                },
            )
        } else {
            None
        },
        _ => None,
    }
}

/// The liquid assets of the market, in the order of the universe.
pub fn build_rows(metas: &Vec<AssetMeta>, ctxs: &Vec<AssetCtx>) -> (r: Result<
    Vec<ScanRow>,
    LengthMismatch,
>)
    ensures
        match r {
            Ok(rows) => metas@.len() == ctxs@.len() && rows@ == rows_until(
                metas@,
                ctxs@,
                metas@.len(),
            ),
            Err(e) => metas@.len() != ctxs@.len() && e == (LengthMismatch {
                universe: metas.len(),
                ctxs: ctxs.len(),
            }),
        },
{
    let n: usize = metas.len();
    if n != ctxs.len() {
        return Err(LengthMismatch { universe: n, ctxs: ctxs.len() });
    }
    let mut out: Vec<ScanRow> = Vec::new();
    let mut i: usize = 0;
    while i < n
        invariant
            n == metas@.len(),
            n == ctxs@.len(),
            i <= n,
            out@ == rows_until(metas@, ctxs@, i as nat),
        decreases n - i,
    {
        match row(i, &metas[i], &ctxs[i]) {
            Some(r) => {
                out.push(r);
            },
            None => {},
        }
        i = i + 1;
    }
    Ok(out)
}

/// Every row is of an asset that is listed and liquid, and of one that comes after that of the row
/// before.
pub proof fn rows_are_listed_and_liquid(metas: Seq<AssetMeta>, ctxs: Seq<AssetCtx>, n: nat)
    requires
        n <= metas.len() == ctxs.len(),
        metas.len() <= usize::MAX,
    ensures
        forall|i: int|
            0 <= i < rows_until(metas, ctxs, n).len() ==> {
                let r = #[trigger] rows_until(metas, ctxs, n)[i];
                &&& r.place < n
                &&& !metas[r.place as int].delisted
                &&& r.day_volume_usd.above(100_000)
                &&& r.max_leverage == metas[r.place as int].max_leverage
            },
        forall|i: int, j: int|
            0 <= i < j < rows_until(metas, ctxs, n).len() ==> (#[trigger] rows_until(
                metas,
                ctxs,
                n,
            )[i]).place < (#[trigger] rows_until(metas, ctxs, n)[j]).place,
    decreases n,
{
    if n > 0 {
        rows_are_listed_and_liquid(metas, ctxs, (n - 1) as nat);
        let before = rows_until(metas, ctxs, (n - 1) as nat);
        let now = rows_until(metas, ctxs, n);
        assert forall|i: int| 0 <= i < now.len() implies {
            let r = #[trigger] now[i];
            &&& r.place < n
            &&& !metas[r.place as int].delisted
            &&& r.day_volume_usd.above(100_000)
            &&& r.max_leverage == metas[r.place as int].max_leverage
        } by {
            if i < before.len() {
                assert(now[i] == before[i]);
            }
        }
        assert forall|i: int, j: int| 0 <= i < j < now.len() implies (#[trigger] now[i]).place < (
        #[trigger] now[j]).place by {
            assert(now[i] == before[i]);
            if j < before.len() {
                assert(now[j] == before[j]);
            }
        }
    }
}

/// The rates of the rows can be compared with each other: none is without a value, or there is but
/// one.
pub open spec fn sortable(rows: Seq<ScanRow>) -> bool {
    rows.len() <= 1 || forall|i: int|
        0 <= i < rows.len() ==> !(#[trigger] rows[i]).funding_apr.nan()
}

/// Whether the rates of the rows can be compared with each other.
pub fn are_sortable(rows: &Vec<ScanRow>) -> (r: bool)
    ensures
        r == sortable(rows@),
{
    let n: usize = rows.len();
    if n <= 1 {
        return true;
    }
    let mut i: usize = 0;
    while i < n
        invariant
            n == rows@.len(),
            n > 1,
            i <= n,
            forall|k: int| 0 <= k < i ==> !(#[trigger] rows@[k]).funding_apr.nan(),
        decreases n - i,
    {
        if rows[i].funding_apr.is_nan() {
            assert(rows@[i as int].funding_apr.nan());
            return false;
        }
        i = i + 1;
    }
    true
}

pub open spec fn rates_of(rows: Seq<ScanRow>) -> Seq<Binary64> {
    rows.map_values(|r: ScanRow| r.funding_apr.abs_spec())
}

/// The rows, the largest rate either way first; equal ones keep their order.
pub open spec fn ranked_rows(rows: Seq<ScanRow>) -> Seq<ScanRow> {
    descending(double_keys(rates_of(rows))).map_values(|i: usize| rows[i as int])
}

/// The rows, the largest rate either way first.
pub fn rank_rows(rows: &Vec<ScanRow>) -> (r: Vec<ScanRow>)
    requires
        sortable(rows@),
    ensures
        r@ == ranked_rows(rows@),
        r@.len() == rows@.len(),
{
    let n: usize = rows.len();
    let mut rates: Vec<Binary64> = Vec::new();
    let mut i: usize = 0;
    while i < n
        invariant
            n == rows@.len(),
            i <= n,
            rates@ =~= rates_of(rows@.take(i as int)),
        decreases n - i,
    {
        rates.push(rows[i].funding_apr.abs());
        i = i + 1;
    }
    assert(rows@.take(n as int) =~= rows@);
    let order = by_falling_value(&rates);
    let mut out: Vec<ScanRow> = Vec::new();
    let mut k: usize = 0;
    while k < n
        invariant
            k <= n,
            n == rows@.len(),
            n == order@.len(),
            forall|j: int| 0 <= j < n ==> (#[trigger] order@[j]) < n,
            out@ =~= order@.take(k as int).map_values(|j: usize| rows@[j as int]),
        decreases n - k,
    {
        out.push(rows[order[k]]);
        k = k + 1;
    }
    assert(order@.take(n as int) =~= order@);
    out
}

/// How many rows a scan shows: twenty at most.
pub fn shown(rows: usize) -> (r: usize)
    ensures
        r == least(20, rows as nat),
{
    if rows < 20 {
        rows
    } else {
        20
    }
}

// The assets whose rate lasts.

/// Sixty percent of twelve readings an hour, rounded up.
pub open spec fn min_count_spec(hours: nat) -> nat {
    (36 * hours + 4) / 5
}

/// The least number of readings in some hours.
pub fn min_snapshots(hours: u32) -> (r: i64)
    ensures
        r == min_count_spec(hours as nat),
{
    (36 * hours as i64 + 4) / 5
}

/// It is the least whole number that is not below sixty percent.
pub proof fn min_count_is_sixty_percent(hours: nat)
    ensures
        10 * min_count_spec(hours) >= 6 * (12 * hours),
        min_count_spec(hours) > 0 ==> 10 * (min_count_spec(hours) - 1) < 6 * (12 * hours),
{
}

/// The start of a window of some hours that ends now, in seconds.
pub open spec fn window_from(now: int, hours: nat) -> int {
    now - hours * 3600
}

/// The start of a window of some hours, in seconds.
pub fn window_start(now: i64, hours: u32) -> (r: i64)
    requires
        i64::MIN <= now - hours * 3600,
    ensures
        r == now - hours * 3600,
        r == window_from(now as int, hours as nat),
{
    now - hours as i64 * 3600
}

/// The readings of an asset in a window, summed up.
#[derive(Clone, Copy, Debug)]
pub struct PersistentRow {
    /// The asset, by its place.
    pub place: usize,
    pub avg_apr: Binary64,
    pub avg_apr_sq: Binary64,
    pub last_apr: Binary64,
    pub snap_count: i64,
    pub last_ts: i64,
    pub day_volume_usd: Binary64,
    pub mark_price: Binary64,
    pub max_leverage: u32,
}

/// The deviation of the readings of an asset.
pub open spec fn std_of(r: PersistentRow) -> Binary64 {
    deviation(r.avg_apr_sq, r.avg_apr)
}

/// The deviation of the readings of an asset.
pub fn std_apr(r: &PersistentRow) -> (s: Binary64)
    ensures
        s == std_of(*r),
{
    population_deviation(r.avg_apr_sq, r.avg_apr)
}

/// There are enough readings, the mean rate is high enough, the deviation is below 30 percent of
/// it, and the volume is a million dollars at least.
pub open spec fn persists(r: PersistentRow, min_count: int, min_apr: Binary64) -> bool {
    &&& r.snap_count >= min_count
    &&& !r.avg_apr.abs_spec().less(min_apr)
    &&& !r.avg_apr.abs_spec().times_spec(Binary64::ratio(3, 10)).at_most(std_of(r))
    &&& !r.day_volume_usd.below(1_000_000)
}

/// Whether the rate of an asset lasts.
pub fn is_persistent(r: &PersistentRow, min_count: i64, min_apr: Binary64) -> (b: bool)
    ensures
        b == persists(*r, min_count as int, min_apr),
        b ==> r.snap_count >= min_count && !r.avg_apr.abs_spec().less(min_apr),
{
    if r.snap_count < min_count {
        return false;
    }
    if r.avg_apr.abs().is_less(min_apr) {
        return false;
    }
    if r.avg_apr.abs().times(Binary64::from_ratio(3, 10)).is_at_most(std_apr(r)) {
        return false;
    }
    if r.day_volume_usd.is_below(1_000_000) {
        return false;
    }
    true
}

/// The assets whose rate lasts, in their order.
pub open spec fn persistent_spec(
    rows: Seq<PersistentRow>,
    min_count: int,
    min_apr: Binary64,
) -> Seq<PersistentRow>
    decreases rows.len(),
{
    if rows.len() == 0 {
        Seq::empty()
    } else {
        let before = persistent_spec(rows.drop_last(), min_count, min_apr);
        if persists(rows.last(), min_count, min_apr) {
            before.push(rows.last())
        } else {
            before
        }
    }
}

/// The assets whose rate lasts over a window of some hours, in their order.
pub fn filter_persistent(rows: &Vec<PersistentRow>, hours: u32, min_apr: Binary64) -> (r: Vec<
    PersistentRow,
>)
    ensures
        r@ == persistent_spec(rows@, min_count_spec(hours as nat) as int, min_apr),
{
    let min_count: i64 = min_snapshots(hours);
    let mut out: Vec<PersistentRow> = Vec::new();
    let n: usize = rows.len();
    let mut i: usize = 0;
    while i < n
        invariant
            n == rows@.len(),
            i <= n,
            min_count == min_count_spec(hours as nat),
            out@ == persistent_spec(rows@.take(i as int), min_count as int, min_apr),
        decreases n - i,
    {
        assert(rows@.take(i + 1).drop_last() =~= rows@.take(i as int));
        if is_persistent(&rows[i], min_count, min_apr) {
            out.push(rows[i]);
        }
        i = i + 1;
    }
    assert(rows@.take(n as int) =~= rows@);
    out
}

// The collection.

/// What is left of an interval, if anything is.
pub open spec fn left_of(interval: nat, elapsed: nat) -> Option<nat> {
    if elapsed < interval {
        Some((interval - elapsed) as nat)
    } else {
        None
    }
}

/// How long to wait for the next reading, in nanoseconds; not at all where the interval is over.
pub fn remaining(interval: u128, elapsed: u128) -> (r: Option<u128>)
    ensures
        elapsed < interval ==> r == Some((interval - elapsed) as u128),
        elapsed >= interval ==> r is None,
        match r {
            Some(wait) => left_of(interval as nat, elapsed as nat) == Some(wait as nat),
            None => left_of(interval as nat, elapsed as nat) is None,
        },
{
    if elapsed < interval {
        Some(interval - elapsed)
    } else {
        None
    }
}

// Texts.

pub open spec fn mismatch_text(e: LengthMismatch) -> Seq<char> {
    "длина universe ("@ + decimal(e.universe as nat) + ") != длина ctxs ("@
        + decimal(e.ctxs as nat) + ")"@
}

/// What is said where the universe and the figures do not belong together.
pub fn mismatch(e: &LengthMismatch) -> (r: String)
    ensures
        r@ == mismatch_text(*e),
{
    let mut l = text("длина universe (");
    append_decimal(&mut l, e.universe as u128);
    l.append(") != длина ctxs (");
    append_decimal(&mut l, e.ctxs as u128);
    l.append(")");
    l
}

pub open spec fn scan_cells_text(rank: nat, row: ScanRow, name: Seq<char>) -> Seq<Seq<char>> {
    seq![
        decimal(rank as nat),
        name,
        fixed(row.mark_px, 4, false),
        fixed(row.funding_hourly.times_spec(Binary64::whole(100)), 5, false),
        fixed(row.funding_apr, 2, true),
        usd_text(row.open_interest_usd),
        usd_text(row.day_volume_usd),
        decimal(row.max_leverage as nat) + "x"@,
    ]
}

/// The cells of an asset of a scan, with its rank.
pub fn scan_cells(rank: usize, row: &ScanRow, name: &str) -> (r: Vec<String>)
    ensures
        texts(r@) == scan_cells_text(rank as nat, *row, name@),
{
    let interest = format_usd(row.open_interest_usd);
    let volume = format_usd(row.day_volume_usd);
    let mut lines: Vec<String> = Vec::new();
    let mut l = String::new();
    append_decimal(&mut l, rank as u128);
    assert(l@ =~= decimal(rank as nat));
    lines.push(l);
    let l = text(name);
    lines.push(l);
    let mut l = String::new();
    append_fixed(&mut l, row.mark_px, 4, false);
    assert(l@ =~= fixed(row.mark_px, 4, false));
    lines.push(l);
    let mut l = String::new();
    append_fixed(&mut l, row.funding_hourly.times(Binary64::from_whole(100)), 5, false);
    assert(l@ =~= fixed(row.funding_hourly.times_spec(Binary64::whole(100)), 5, false));
    lines.push(l);
    let mut l = String::new();
    append_fixed(&mut l, row.funding_apr, 2, true);
    assert(l@ =~= fixed(row.funding_apr, 2, true));
    lines.push(l);
    let l = text(interest.as_str());
    lines.push(l);
    let l = text(volume.as_str());
    lines.push(l);
    let mut l = String::new();
    append_decimal(&mut l, row.max_leverage as u128);
    assert(l@ =~= decimal(row.max_leverage as nat));
    l.append("x");
    lines.push(l);
    assert(texts(lines@) =~= scan_cells_text(rank as nat, *row, name@));
    lines
}

pub open spec fn persistent_head_text(hours: nat, min_apr: Binary64, min_count: int) -> Seq<char> {
    "window="@ + decimal(hours as nat) + "h, min |avg APR|="@ + fixed(min_apr, 0, false)
        + "%, min snapshots="@ + signed_decimal(min_count as int)
        + ", std/|avg| < 0.30, last vol > $1M"@
}

/// The filters that the assets have passed.
pub fn persistent_head(hours: u32, min_apr: Binary64, min_count: i64) -> (r: String)
    ensures
        r@ == persistent_head_text(hours as nat, min_apr, min_count as int),
{
    let mut l = text("window=");
    append_decimal(&mut l, hours as u128);
    l.append("h, min |avg APR|=");
    append_fixed(&mut l, min_apr, 0, false);
    l.append("%, min snapshots=");
    append_signed(&mut l, min_count);
    l.append(", std/|avg| < 0.30, last vol > $1M");
    l
}

pub open spec fn persistent_cells_text(
    rank: nat,
    row: PersistentRow,
    name: Seq<char>,
    last_seen: Seq<char>,
) -> Seq<Seq<char>> {
    seq![
        decimal(rank as nat),
        name,
        fixed(row.avg_apr, 2, true),
        fixed(std_of(row), 2, false),
        fixed(row.last_apr, 2, true),
        signed_decimal(row.snap_count as int),
        last_seen,
        fixed(row.mark_price, 4, false),
        usd_text(row.day_volume_usd),
        decimal(row.max_leverage as nat) + "x"@,
    ]
}

/// The cells of an asset whose rate lasts, with its rank and the time of its last reading.
pub fn persistent_cells(rank: usize, row: &PersistentRow, name: &str, last_seen: &str) -> (r: Vec<String>)
    ensures
        texts(r@) == persistent_cells_text(rank as nat, *row, name@, last_seen@),
{
    let volume = format_usd(row.day_volume_usd);
    let mut lines: Vec<String> = Vec::new();
    let mut l = String::new();
    append_decimal(&mut l, rank as u128);
    assert(l@ =~= decimal(rank as nat));
    lines.push(l);
    let l = text(name);
    lines.push(l);
    let mut l = String::new();
    append_fixed(&mut l, row.avg_apr, 2, true);
    assert(l@ =~= fixed(row.avg_apr, 2, true));
    lines.push(l);
    let mut l = String::new();
    append_fixed(&mut l, std_apr(row), 2, false);
    assert(l@ =~= fixed(std_of(*row), 2, false));
    lines.push(l);
    let mut l = String::new();
    append_fixed(&mut l, row.last_apr, 2, true);
    assert(l@ =~= fixed(row.last_apr, 2, true));
    lines.push(l);
    let mut l = String::new();
    append_signed(&mut l, row.snap_count);
    assert(l@ =~= signed_decimal(row.snap_count as int));
    lines.push(l);
    let l = text(last_seen);
    lines.push(l);
    let mut l = String::new();
    append_fixed(&mut l, row.mark_price, 4, false);
    assert(l@ =~= fixed(row.mark_price, 4, false));
    lines.push(l);
    let l = text(volume.as_str());
    lines.push(l);
    let mut l = String::new();
    append_decimal(&mut l, row.max_leverage as u128);
    assert(l@ =~= decimal(row.max_leverage as nat));
    l.append("x");
    lines.push(l);
    assert(texts(lines@) =~= persistent_cells_text(rank as nat, *row, name@, last_seen@));
    lines
}

pub open spec fn collect_start_text(interval_seconds: nat) -> Seq<char> {
    "Starting collect mode, interval: "@ + decimal(interval_seconds as nat)
        + "s, db: ./data/snapshots.db"@
}

/// What is said when the collection starts.
pub fn collect_start(interval_seconds: u64) -> (r: String)
    ensures
        r@ == collect_start_text(interval_seconds as nat),
{
    let mut l = text("Starting collect mode, interval: ");
    append_decimal(&mut l, interval_seconds as u128);
    l.append("s, db: ./data/snapshots.db");
    l
}

pub open spec fn saved_text(count: nat, db_size: nat, total: int) -> Seq<char> {
    "Saved "@ + decimal(count as nat) + " snapshots, db size: "@ + bytes_text(db_size)
        + ", total snapshots: "@ + signed_decimal(total as int)
}

/// What is said when readings were stored.
pub fn saved(count: usize, db_size: u64, total: i64) -> (r: String)
    ensures
        r@ == saved_text(count as nat, db_size as nat, total as int),
{
    let size = format_bytes(db_size);
    let mut l = text("Saved ");
    append_decimal(&mut l, count as u128);
    l.append(" snapshots, db size: ");
    l.append(size.as_str());
    l.append(", total snapshots: ");
    append_signed(&mut l, total);
    l
}

} // verus!
