//! The history of funding rates: what to ask for, page by page, and how rows become series.

use crate::backtest::{in_time_order, FundingPoint};
use crate::binary64::Binary64;
use crate::decimal::{append_decimal, append_signed, decimal, signed_decimal, text};
use crate::grouping::{is_listed, listed};
use crate::simulation::truncated;
use crate::stats::{volume_ratio, volume_ratio_spec};
use vstd::prelude::*;
use vstd::string::*;

verus! {

/// A day in milliseconds.
pub const DAY_MS: i64 = 86_400_000;

/// The most rows that a page holds.
pub const PAGE: usize = 500;

/// How often a request is tried.
pub const ATTEMPTS: u32 = 3;

/// The start of a period of some days that ends now, in milliseconds.
pub open spec fn period_from(now_ms: int, days: nat) -> int {
    now_ms - days * DAY_MS
}

/// The start of a period of some days that ends now.
pub fn period_start(now_ms: i64, days: u32) -> (r: i64)
    requires
        i64::MIN <= now_ms - days * DAY_MS,
    ensures
        r == now_ms - days * DAY_MS,
        r == period_from(now_ms as int, days as nat),
{
    now_ms - days as i64 * DAY_MS
}

/// Where the download of a coin begins: behind what is stored, and not before the period.
pub open spec fn fetch_from(stored_max: Option<i64>, start_ms: int) -> int {
    match stored_max {
        Some(m) => if m + 1 >= start_ms {
            m + 1
        } else {
            start_ms
        },
        None => start_ms,
    }
}

/// Where the download of a coin begins; none where all of the period is stored.
pub fn plan_fetch(stored_max: Option<i64>, start_ms: i64, end_ms: i64) -> (r: Option<i64>)
    requires
        stored_max != Some(i64::MAX),
    ensures
        match r {
            Some(from) => from == fetch_from(stored_max, start_ms as int) && from < end_ms,
            None => fetch_from(stored_max, start_ms as int) >= end_ms,
        },
{
    let behind: i64 = match stored_max {
        Some(m) => m + 1,
        None => start_ms,
    };
    let from: i64 = if behind >= start_ms {
        behind
    } else {
        start_ms
    };
    if from >= end_ms {
        None
    } else {
        Some(from)
    }
}

/// What is asked for is not stored yet and lies in the period.
pub proof fn only_the_rest_is_fetched(stored_max: Option<i64>, start_ms: int)
    ensures
        fetch_from(stored_max, start_ms) >= start_ms,
        stored_max matches Some(m) ==> fetch_from(stored_max, start_ms) > m,
{
}

// Pages.

/// The latest of the times.
pub open spec fn latest(times: Seq<i64>) -> i64
    decreases times.len(),
{
    if times.len() <= 1 {
        times[0]
    } else {
        let before = latest(times.drop_last());
        if before <= times.last() {
            times.last()
        } else {
            before
        }
    }
}

/// The start of the page behind one with the given times; none where that one was the last: it
/// was not full, or it reached the end of the period.
pub open spec fn next_page(times: Seq<i64>, end_ms: int) -> Option<int> {
    if times.len() < PAGE || latest(times) + 1 >= end_ms {
        None
    } else {
        Some(latest(times) + 1)
    }
}

/// The start of the page behind one with the given times.
pub fn page_after(times: &Vec<i64>, end_ms: i64) -> (r: Option<i64>)
    ensures
        match r {
            Some(next) => next_page(times@, end_ms as int) == Some(next as int),
            None => next_page(times@, end_ms as int) is None,
        },
{
    let n: usize = times.len();
    if n < PAGE {
        return None;
    }
    let mut last: i64 = times[0];
    let mut i: usize = 1;
    while i < n
        invariant
            n == times@.len(),
            1 <= i <= n,
            last == latest(times@.take(i as int)),
        decreases n - i,
    {
        assert(times@.take(i + 1).drop_last() =~= times@.take(i as int));
        if last <= times[i] {
            last = times[i];
        }
        i = i + 1;
    }
    assert(times@.take(n as int) =~= times@);
    if last as i128 + 1 >= end_ms as i128 {
        None
    } else {
        Some(last + 1)
    }
}

/// Where the rows of a page lie behind its start, the next page starts behind it too and within
/// the period, and holds none of the rows again: the download of a coin comes to an end.
pub proof fn pages_move_forward(times: Seq<i64>, cursor: int, end_ms: int)
    requires
        forall|i: int| 0 <= i < times.len() ==> cursor <= #[trigger] times[i],
        next_page(times, end_ms) is Some,
    ensures
        cursor < next_page(times, end_ms)->0 < end_ms,
        forall|i: int| 0 <= i < times.len() ==> #[trigger] times[i] < next_page(times, end_ms)->0,
{
    lemma_latest(times);
    assert(cursor <= times[0]);
}

proof fn lemma_latest(times: Seq<i64>)
    requires
        times.len() > 0,
    ensures
        forall|i: int| 0 <= i < times.len() ==> #[trigger] times[i] <= latest(times),
    decreases times.len(),
{
    if times.len() > 1 {
        let rest = times.drop_last();
        lemma_latest(rest);
        assert forall|i: int| 0 <= i < times.len() implies #[trigger] times[i] <= latest(times) by {
            if i < times.len() - 1 {
                assert(rest[i] == times[i]);
            }
        }
    }
}

/// What follows a failed request.
#[derive(Clone, Copy, Debug, PartialEq, Eq, Structural)]
pub struct Retry {
    /// How long to wait, in milliseconds.
    pub wait_ms: u64,
    /// Whether to try again after that.
    pub again: bool,
}

/// After the first failure a second is waited, after each further one twice as long; the third
/// failure is the last.
pub open spec fn retry_spec(attempt: nat) -> Retry {
    Retry {
        wait_ms: if attempt == 0 {
            1000
        } else if attempt == 1 {
            2000
        } else {
            4000
        },
        again: attempt + 1 < ATTEMPTS,
    }
}

/// What follows the failure of an attempt, counted from zero.
pub fn after_failure(attempt: u32) -> (r: Retry)
    requires
        attempt < ATTEMPTS,
    ensures
        r == retry_spec(attempt as nat),
{
    Retry {
        wait_ms: if attempt == 0 {
            1000
        } else if attempt == 1 {
            2000
        } else {
            4000
        },
        again: attempt + 1 < ATTEMPTS,
    }
}

/// Each wait is twice the one before.
pub proof fn waits_double(attempt: nat)
    requires
        attempt + 1 < ATTEMPTS,
    ensures
        retry_spec(attempt + 1).wait_ms == 2 * retry_spec(attempt).wait_ms,
        retry_spec(attempt).again,
{
}

/// Whether the progress is told after the coin at a place, counted from zero: after every tenth.
pub fn tells_progress(place: usize) -> (r: bool)
    ensures
        r == ((place + 1) % 10 == 0),
{
    place % 10 == 9
}

// Series.

/// A stored funding rate.
pub struct HistoryRow {
    pub coin: String,
    pub time_ms: i64,
    pub rate: Binary64,
}

/// The rates of one coin.
pub struct CoinHistory {
    pub coin: String,
    pub points: Vec<FundingPoint>,
}

/// The wanted coins that occur in the rows, each once, in the order in which they first occur.
pub open spec fn coins_in(rows: Seq<HistoryRow>, wanted: Seq<String>) -> Seq<Seq<char>>
    decreases rows.len(),
{
    if rows.len() == 0 {
        Seq::empty()
    } else {
        let before = coins_in(rows.drop_last(), wanted);
        let coin = rows.last().coin@;
        if listed(wanted, coin) && !before.contains(coin) {
            before.push(coin)
        } else {
            before
        }
    }
}

/// The rates of a coin, in the order of the rows.
pub open spec fn points_of(rows: Seq<HistoryRow>, coin: Seq<char>) -> Seq<FundingPoint>
    decreases rows.len(),
{
    if rows.len() == 0 {
        Seq::empty()
    } else {
        let before = points_of(rows.drop_last(), coin);
        if rows.last().coin@ == coin {
            before.push(FundingPoint { time_ms: rows.last().time_ms, rate: rows.last().rate })
        } else {
            before
        }
    }
}

/// One history for each wanted coin that occurs, with all of its rates.
pub open spec fn histories_of(
    out: Seq<CoinHistory>,
    rows: Seq<HistoryRow>,
    wanted: Seq<String>,
) -> bool {
    &&& out.len() == coins_in(rows, wanted).len()
    &&& forall|g: int|
        0 <= g < out.len() ==> {
            &&& (#[trigger] out[g]).coin@ == coins_in(rows, wanted)[g]
            &&& out[g].points@ == points_of(rows, out[g].coin@)
        }
}

proof fn lemma_unseen(rows: Seq<HistoryRow>, wanted: Seq<String>, coin: Seq<char>)
    requires
        listed(wanted, coin),
        !coins_in(rows, wanted).contains(coin),
    ensures
        points_of(rows, coin).len() == 0,
    decreases rows.len(),
{
    if rows.len() > 0 {
        let before = coins_in(rows.drop_last(), wanted);
        let now = coins_in(rows, wanted);
        if before.contains(coin) {
            let k = choose|k: int| 0 <= k < before.len() && before[k] == coin;
            assert(now[k] == coin);
        }
        if rows.last().coin@ == coin {
            assert(now[now.len() - 1] == coin);
        }
        lemma_unseen(rows.drop_last(), wanted, coin);
    }
}

fn find_history(histories: &Vec<CoinHistory>, coin: &String) -> (r: Option<usize>)
    ensures
        match r {
            Some(g) => g < histories@.len() && histories@[g as int].coin@ == coin@,
            None => forall|g: int|
                0 <= g < histories@.len() ==> (#[trigger] histories@[g]).coin@ != coin@,
        },
{
    let n: usize = histories.len();
    let mut g: usize = 0;
    while g < n
        invariant
            n == histories@.len(),
            g <= n,
            forall|k: int| 0 <= k < g ==> (#[trigger] histories@[k]).coin@ != coin@,
        decreases n - g,
    {
        if histories[g].coin == *coin {
            return Some(g);
        }
        g = g + 1;
    }
    None
}

proof fn lemma_coins_distinct(rows: Seq<HistoryRow>, wanted: Seq<String>)
    ensures
        forall|a: int, b: int|
            0 <= a < b < coins_in(rows, wanted).len() ==> #[trigger] coins_in(rows, wanted)[a]
                != #[trigger] coins_in(rows, wanted)[b],
        forall|a: int|
            0 <= a < coins_in(rows, wanted).len() ==> listed(
                wanted,
                #[trigger] coins_in(rows, wanted)[a],
            ),
    decreases rows.len(),
{
    if rows.len() > 0 {
        lemma_coins_distinct(rows.drop_last(), wanted);
        let before = coins_in(rows.drop_last(), wanted);
        let now = coins_in(rows, wanted);
        assert forall|a: int, b: int| 0 <= a < b < now.len() implies #[trigger] now[a]
            != #[trigger] now[b] by {
            if b == before.len() {
                assert(before.contains(before[a]));
            }
        }
    }
}

/// One row more: what it does to the histories.
proof fn lemma_add_row(
    before: Seq<CoinHistory>,
    after: Seq<CoinHistory>,
    rows: Seq<HistoryRow>,
    wanted: Seq<String>,
)
    requires
        rows.len() > 0,
        histories_of(before, rows.drop_last(), wanted),
        ({
            let row = rows.last();
            let point = FundingPoint { time_ms: row.time_ms, rate: row.rate };
            if !listed(wanted, row.coin@) {
                after == before
            } else if exists|g: int|
                0 <= g < before.len() && (#[trigger] before[g]).coin@ == row.coin@ {
                exists|g: int|
                    {
                        &&& 0 <= g < before.len()
                        &&& (#[trigger] before[g]).coin@ == row.coin@
                        &&& after.len() == before.len()
                        &&& after[g].coin@ == before[g].coin@
                        &&& after[g].points@ == before[g].points@.push(point)
                        &&& forall|k: int|
                            0 <= k < before.len() && k != g ==> #[trigger] after[k] == before[k]
                    }
            } else {
                &&& after.len() == before.len() + 1
                &&& after.last().coin@ == row.coin@
                &&& after.last().points@ == seq![point]
                &&& forall|k: int| 0 <= k < before.len() ==> #[trigger] after[k] == before[k]
            }
        }),
    ensures
        histories_of(after, rows, wanted),
{
    let row = rows.last();
    let point = FundingPoint { time_ms: row.time_ms, rate: row.rate };
    let rest = rows.drop_last();
    let old_coins = coins_in(rest, wanted);
    let coins = coins_in(rows, wanted);
    lemma_coins_distinct(rest, wanted);
    if !listed(wanted, row.coin@) {
        assert forall|k: int| 0 <= k < after.len() implies {
            &&& (#[trigger] after[k]).coin@ == coins[k]
            &&& after[k].points@ == points_of(rows, after[k].coin@)
        } by {
            assert(listed(wanted, old_coins[k]));
        }
    } else if exists|g: int| 0 <= g < before.len() && (#[trigger] before[g]).coin@ == row.coin@ {
        let g = choose|g: int|
            {
                &&& 0 <= g < before.len()
                &&& (#[trigger] before[g]).coin@ == row.coin@
                &&& after.len() == before.len()
                &&& after[g].coin@ == before[g].coin@
                &&& after[g].points@ == before[g].points@.push(point)
                &&& forall|k: int|
                    0 <= k < before.len() && k != g ==> #[trigger] after[k] == before[k]
            };
        assert(old_coins[g] == row.coin@);
        assert(coins == old_coins);
        assert forall|k: int| 0 <= k < after.len() implies {
            &&& (#[trigger] after[k]).coin@ == coins[k]
            &&& after[k].points@ == points_of(rows, after[k].coin@)
        } by {
            if k != g {
                assert(before[k].coin@ == old_coins[k]);
                assert(old_coins[k] != old_coins[g]) by {
                    if k < g {
                        assert(old_coins[k] != old_coins[g]);
                    } else {
                        assert(old_coins[g] != old_coins[k]);
                    }
                }
            } else {
                assert(before[g].points@ == points_of(rest, before[g].coin@));
            }
        }
    } else {
        if old_coins.contains(row.coin@) {
            let k = choose|k: int| 0 <= k < old_coins.len() && old_coins[k] == row.coin@;
            assert(before[k].coin@ == row.coin@);
        }
        lemma_unseen(rest, wanted, row.coin@);
        assert(points_of(rest, row.coin@) =~= Seq::<FundingPoint>::empty());
        assert(coins == old_coins.push(row.coin@));
        assert forall|k: int| 0 <= k < after.len() implies {
            &&& (#[trigger] after[k]).coin@ == coins[k]
            &&& after[k].points@ == points_of(rows, after[k].coin@)
        } by {
            if k < before.len() {
                assert(after[k] == before[k]);
                assert(before[k].coin@ != row.coin@);
            } else {
                assert(points_of(rows, row.coin@) =~= seq![point]);
            }
        }
    }
}

/// The histories of the wanted coins, out of stored rows.
pub fn load_series(rows: &Vec<HistoryRow>, wanted: &Vec<String>) -> (out: Vec<CoinHistory>)
    ensures
        histories_of(out@, rows@, wanted@),
{
    let mut out: Vec<CoinHistory> = Vec::new();
    let n: usize = rows.len();
    let mut i: usize = 0;
    assert(rows@.take(0) =~= Seq::<HistoryRow>::empty());
    while i < n
        invariant
            n == rows@.len(),
            i <= n,
            histories_of(out@, rows@.take(i as int), wanted@),
        decreases n - i,
    {
        let ghost before = out@;
        let ghost now = rows@.take(i + 1);
        assert(now.drop_last() =~= rows@.take(i as int));
        let point = FundingPoint { time_ms: rows[i].time_ms, rate: rows[i].rate };
        if is_listed(wanted, &rows[i].coin) {
            match find_history(&out, &rows[i].coin) {
                Some(g) => {
                    out[g].points.push(point);
                    assert(before[g as int].coin@ == now.last().coin@);
                },
                None => {
                    let mut points: Vec<FundingPoint> = Vec::new();
                    points.push(point);
                    assert(points@ =~= seq![point]);
                    out.push(CoinHistory { coin: rows[i].coin.clone(), points });
                },
            }
        }
        proof {
            lemma_add_row(before, out@, now, wanted@);
        }
        i = i + 1;
    }
    assert(rows@.take(n as int) =~= rows@);
    out
}

/// Rows that are in the order of time, coin by coin, make histories that are.
pub proof fn sorted_rows_make_ordered_histories(rows: Seq<HistoryRow>, coin: Seq<char>)
    requires
        forall|i: int, j: int|
            0 <= i <= j < rows.len() && (#[trigger] rows[i]).coin@ == (#[trigger] rows[j]).coin@
                ==> rows[i].time_ms <= rows[j].time_ms,
    ensures
        in_time_order(points_of(rows, coin)),
{
    lemma_ordered_until(rows, coin);
}

/// A rate is that of a row of the coin.
spec fn stems_from(rows: Seq<HistoryRow>, coin: Seq<char>, p: FundingPoint) -> bool {
    exists|i: int|
        0 <= i < rows.len() && (#[trigger] rows[i]).coin@ == coin && rows[i].time_ms == p.time_ms
}

proof fn lemma_ordered_until(rows: Seq<HistoryRow>, coin: Seq<char>)
    requires
        forall|i: int, j: int|
            0 <= i <= j < rows.len() && (#[trigger] rows[i]).coin@ == (#[trigger] rows[j]).coin@
                ==> rows[i].time_ms <= rows[j].time_ms,
    ensures
        in_time_order(points_of(rows, coin)),
        forall|k: int|
            0 <= k < points_of(rows, coin).len() ==> stems_from(
                rows,
                coin,
                #[trigger] points_of(rows, coin)[k],
            ),
    decreases rows.len(),
{
    if rows.len() > 0 {
        let rest = rows.drop_last();
        assert forall|i: int, j: int|
            0 <= i <= j < rest.len() && (#[trigger] rest[i]).coin@ == (#[trigger] rest[j]).coin@
            implies rest[i].time_ms <= rest[j].time_ms by {
            assert(rest[i] == rows[i] && rest[j] == rows[j]);
        }
        lemma_ordered_until(rest, coin);
        let before = points_of(rest, coin);
        let now = points_of(rows, coin);
        let last = rows.len() - 1;
        assert forall|k: int| 0 <= k < now.len() implies stems_from(
            rows,
            coin,
            #[trigger] now[k],
        ) by {
            if k < before.len() {
                assert(now[k] == before[k]);
                let i = choose|i: int|
                    0 <= i < rest.len() && (#[trigger] rest[i]).coin@ == coin && rest[i].time_ms
                        == before[k].time_ms;
                assert(rows[i] == rest[i]);
            } else {
                assert(rows[last].coin@ == coin);
            }
        }
        assert forall|a: int, b: int| 0 <= a <= b < now.len() implies (
        #[trigger] now[a]).time_ms <= (#[trigger] now[b]).time_ms by {
            if b < before.len() {
                assert(now[a] == before[a] && now[b] == before[b]);
            } else if a < b {
                assert(now[a] == before[a]);
                let i = choose|i: int|
                    0 <= i < rest.len() && (#[trigger] rest[i]).coin@ == coin && rest[i].time_ms
                        == before[a].time_ms;
                assert(rows[i] == rest[i]);
                assert(rows[i].coin@ == rows[last].coin@);
            }
        }
    }
}

/// The last known volume of a coin.
pub struct VolumeRow {
    pub asset: String,
    pub volume: Binary64,
}

/// The volume of a coin: that of its last row where the coin is a wanted one, else zero.
pub open spec fn volume_of(rows: Seq<VolumeRow>, wanted: Seq<String>, coin: Seq<char>) -> Binary64
    decreases rows.len(),
{
    if rows.len() == 0 {
        Binary64::whole(0)
    } else if rows.last().asset@ == coin && listed(wanted, coin) {
        rows.last().volume
    } else {
        volume_of(rows.drop_last(), wanted, coin)
    }
}

/// The liquidity of a coin, as the score counts it before the logarithm.
pub fn liquidity_of(rows: &Vec<VolumeRow>, wanted: &Vec<String>, coin: &String) -> (r: Binary64)
    ensures
        r == volume_ratio_spec(volume_of(rows@, wanted@, coin@)),
{
    let mut i: usize = rows.len();
    assert(rows@.take(i as int) =~= rows@);
    while i > 0
        invariant
            i <= rows@.len(),
            volume_of(rows@, wanted@, coin@) == volume_of(rows@.take(i as int), wanted@, coin@),
        decreases i,
    {
        assert(rows@.take(i as int).drop_last() =~= rows@.take(i - 1));
        assert(rows@.take(i as int).last() == rows@[i - 1]);
        if rows[i - 1].asset == *coin && is_listed(wanted, coin) {
            return volume_ratio(rows[i - 1].volume);
        }
        i = i - 1;
    }
    volume_ratio(Binary64::from_whole(0))
}

// Texts.

pub open spec fn download_start_text(coins: nat, start_ms: int, end_ms: int) -> Seq<char> {
    "Downloading historical funding: "@ + decimal(coins as nat) + " coins, period "@
        + signed_decimal(truncated(end_ms - start_ms, DAY_MS as int) as int) + " days..."@
}

/// What is about to be downloaded.
pub fn download_start(coins: usize, start_ms: i64, end_ms: i64) -> (r: String)
    requires
        i64::MIN <= end_ms - start_ms <= i64::MAX,
    ensures
        r@ == download_start_text(coins as nat, start_ms as int, end_ms as int),
{
    let mut l = text("Downloading historical funding: ");
    append_decimal(&mut l, coins as u128);
    l.append(" coins, period ");
    append_signed(&mut l, (end_ms - start_ms) / DAY_MS);
    l.append(" days...");
    l
}

pub open spec fn download_progress_text(done: nat, coins: nat, inserted: nat) -> Seq<char> {
    "  ... "@ + decimal(done as nat) + "/"@ + decimal(coins as nat) + " coins, +"@
        + decimal(inserted as nat) + " entries so far"@
}

/// How far the download is.
pub fn download_progress(done: usize, coins: usize, inserted: usize) -> (r: String)
    ensures
        r@ == download_progress_text(done as nat, coins as nat, inserted as nat),
{
    let mut l = text("  ... ");
    append_decimal(&mut l, done as u128);
    l.append("/");
    append_decimal(&mut l, coins as u128);
    l.append(" coins, +");
    append_decimal(&mut l, inserted as u128);
    l.append(" entries so far");
    l
}

pub open spec fn download_end_text(inserted: nat, skipped: nat) -> Seq<char> {
    "Download done: "@ + decimal(inserted as nat) + " new entries inserted, "@
        + decimal(skipped as nat) + " coins already up-to-date"@
}

/// What was downloaded.
pub fn download_end(inserted: usize, skipped: usize) -> (r: String)
    ensures
        r@ == download_end_text(inserted as nat, skipped as nat),
{
    let mut l = text("Download done: ");
    append_decimal(&mut l, inserted as u128);
    l.append(" new entries inserted, ");
    append_decimal(&mut l, skipped as u128);
    l.append(" coins already up-to-date");
    l
}

pub open spec fn retry_note_text(attempt: nat, coin: Seq<char>, reason: Seq<char>) -> Seq<char> {
    "  retry "@ + decimal((attempt + 1) as nat) + "/3 for "@ + coin + ": "@ + reason
}

/// A request failed.
pub fn retry_note(attempt: u32, coin: &str, reason: &str) -> (r: String)
    ensures
        r@ == retry_note_text(attempt as nat, coin@, reason@),
{
    let mut l = text("  retry ");
    append_decimal(&mut l, (attempt as u64 + 1) as u128);
    l.append("/3 for ");
    l.append(coin);
    l.append(": ");
    l.append(reason);
    l
}

} // verus!
