//! What holds of times: the units, the windows, the waiting and the pages of a download.

use crate::backtest::{FundingPoint, HOUR_MS, LOOKBACK_MS};
use crate::grouping::listed;
use crate::history::{
    coins_in, fetch_from, latest, next_page, period_from, points_of, retry_spec, volume_of,
    HistoryRow, VolumeRow, DAY_MS,
};
use crate::metrics::{day_of, DAY_SEC};
use crate::scan::{left_of, window_from};
use crate::signals::{cadence_spec, interval_spec};
use crate::watch::{span_spec, status_spec, Status};
use vstd::prelude::*;

verus! {

/// An hour has 60 minutes of 60 seconds of a thousand milliseconds, and a day has 24 hours.
pub proof fn units_of_time_fit_together()
    ensures
        HOUR_MS == 60 * 60 * 1000,
        DAY_MS == 24 * HOUR_MS,
        LOOKBACK_MS == DAY_MS,
        DAY_SEC * 1000 == DAY_MS,
{
}

/// A window of no hours starts now, and one of an hour more starts 3600 seconds earlier.
pub proof fn windows_grow_by_the_hour(now: int, hours: nat)
    ensures
        window_from(now, 0) == now,
        window_from(now, hours + 1) == window_from(now, hours) - 3600,
{
}

/// A period of no days starts now, and one of a day more starts 86400000 milliseconds earlier.
pub proof fn periods_grow_by_the_day(now_ms: int, days: nat)
    ensures
        period_from(now_ms, 0) == now_ms,
        period_from(now_ms, days + 1) == period_from(now_ms, days) - 86_400_000,
{
    assert((days + 1) * DAY_MS == days * DAY_MS + DAY_MS) by (nonlinear_arith);
}

/// The time that passed and the time to wait make up the interval; where it is over there is
/// nothing to wait for.
pub proof fn passing_and_waiting_make_up_the_interval(interval: nat, elapsed: nat)
    ensures
        match left_of(interval, elapsed) {
            Some(wait) => wait > 0 && elapsed + wait == interval,
            None => elapsed >= interval,
        },
{
}

/// The collector is at work as long as its last reading is no older than two of the intervals
/// that are expected; from the next second on it is late, by an age that is told.
pub proof fn two_intervals_may_pass(ts: i64, every: i64, age: int)
    requires
        i64::MIN <= age <= i64::MAX,
        i64::MIN <= ts + age <= i64::MAX,
    ensures
        age <= every + every ==> status_spec(Some(ts), Some(every), (ts + age) as i64)
            == Status::Collecting,
        age > every + every ==> status_spec(Some(ts), Some(every), (ts + age) as i64)
            == Status::Stale(age as i64, every),
        status_spec(Some(ts), None, (ts + age) as i64) == status_spec(
            Some(ts),
            Some(300),
            (ts + age) as i64,
        ),
{
}

/// Without a reading there is no status to tell.
pub proof fn no_reading_is_no_data(every: Option<i64>, now: i64)
    ensures
        status_spec(None, every, now) == Status::NoData,
{
}

/// The time between two readings does not depend on which comes first, nor on when they were
/// taken; where it is known it is the cadence, but one second at least.
pub proof fn readings_are_some_time_apart(a: i64, b: i64, shift: int)
    requires
        i64::MIN <= a + shift <= i64::MAX,
        i64::MIN <= b + shift <= i64::MAX,
    ensures
        interval_spec(seq![a, b]) == interval_spec(seq![b, a]),
        interval_spec(seq![(a + shift) as i64, (b + shift) as i64]) == interval_spec(seq![a, b]),
        a >= b ==> interval_spec(seq![a, b]) == Some(a - b),
        a > b ==> cadence_spec(seq![a, b]) == a - b,
        a == b ==> cadence_spec(seq![a, b]) == 1,
{
}

/// The readings cover the time from the first to the last one.
pub proof fn readings_cover_their_span(first: i64, span: int)
    requires
        i64::MIN <= first + span <= i64::MAX,
    ensures
        span_spec(Some(first), Some((first + span) as i64)) == span,
        span_spec(None, Some(first)) == 0,
        span_spec(Some(first), None) == 0,
{
}

/// A day later is the next day, from the epoch on.
pub proof fn days_follow_each_other(sec: int)
    requires
        sec >= 0,
    ensures
        day_of(sec) * 86_400 <= sec < (day_of(sec) + 1) * 86_400,
        day_of(sec + 86_400) == day_of(sec) + 1,
{
}

// Downloads.

/// A page of fewer than five hundred rows is the last one; a full one is followed by a page that
/// starts right behind its latest row, unless the period is over by then.
pub proof fn full_pages_are_followed_by_another(times: Seq<i64>, end_ms: int, k: int)
    requires
        0 <= k < times.len(),
        forall|i: int| 0 <= i < times.len() ==> #[trigger] times[i] <= times[k],
    ensures
        times.len() < 500 ==> next_page(times, end_ms) is None,
        times.len() >= 500 && times[k] + 1 < end_ms ==> next_page(times, end_ms) == Some(
            times[k] + 1,
        ),
        times[k] + 1 >= end_ms ==> next_page(times, end_ms) is None,
{
    lemma_latest_is(times, k);
}

proof fn lemma_latest_is(times: Seq<i64>, k: int)
    requires
        0 <= k < times.len(),
        forall|i: int| 0 <= i < times.len() ==> #[trigger] times[i] <= times[k],
    ensures
        latest(times) == times[k],
{
    lemma_latest_among(times);
    let j = choose|j: int| 0 <= j < times.len() && times[j] == latest(times);
    assert(times[j] <= times[k]);
    assert(times[k] <= latest(times));
}

proof fn lemma_latest_among(times: Seq<i64>)
    requires
        times.len() > 0,
    ensures
        exists|j: int| 0 <= j < times.len() && times[j] == latest(times),
        forall|i: int| 0 <= i < times.len() ==> #[trigger] times[i] <= latest(times),
    decreases times.len(),
{
    if times.len() == 1 {
        assert(times[0] == latest(times));
    } else {
        let rest = times.drop_last();
        lemma_latest_among(rest);
        let j = choose|j: int| 0 <= j < rest.len() && rest[j] == latest(rest);
        assert(times[j] == latest(rest));
        assert(times[times.len() - 1] == times.last());
        assert forall|i: int| 0 <= i < times.len() implies #[trigger] times[i] <= latest(times) by {
            if i < rest.len() {
                assert(rest[i] == times[i]);
            }
        }
    }
}

/// What is not stored yet is asked for from right behind what is, and from the start of the
/// period where nothing of it is stored.
pub proof fn downloads_go_on_where_they_stopped(stored: i64, start_ms: int)
    ensures
        stored >= start_ms ==> fetch_from(Some(stored), start_ms) == stored + 1,
        stored < start_ms ==> fetch_from(Some(stored), start_ms) == start_ms,
        fetch_from(None, start_ms) == start_ms,
{
}

/// A request is tried three times.
pub proof fn requests_are_tried_three_times(attempt: nat)
    ensures
        retry_spec(attempt).again <==> attempt < 2,
{
}

/// A coin has a history if and only if it is wanted and occurs in the rows.
pub proof fn wanted_coins_have_a_history(
    rows: Seq<HistoryRow>,
    wanted: Seq<String>,
    coin: Seq<char>,
)
    ensures
        coins_in(rows, wanted).contains(coin) <==> {
            &&& listed(wanted, coin)
            &&& exists|i: int| 0 <= i < rows.len() && (#[trigger] rows[i]).coin@ == coin
        },
    decreases rows.len(),
{
    if rows.len() > 0 {
        let rest = rows.drop_last();
        let last = rows.len() - 1;
        wanted_coins_have_a_history(rest, wanted, coin);
        let before = coins_in(rest, wanted);
        let now = coins_in(rows, wanted);
        assert(rows.last() == rows[last]);
        if exists|i: int| 0 <= i < rest.len() && (#[trigger] rest[i]).coin@ == coin {
            let i = choose|i: int| 0 <= i < rest.len() && (#[trigger] rest[i]).coin@ == coin;
            assert(rows[i] == rest[i]);
        }
        if exists|i: int| 0 <= i < rows.len() && (#[trigger] rows[i]).coin@ == coin {
            let i = choose|i: int| 0 <= i < rows.len() && (#[trigger] rows[i]).coin@ == coin;
            if i < last {
                assert(rest[i] == rows[i]);
            }
        }
        if before.contains(coin) {
            let k = choose|k: int| 0 <= k < before.len() && before[k] == coin;
            assert(now[k] == coin);
        }
        if now.contains(coin) && !before.contains(coin) {
            let k = choose|k: int| 0 <= k < now.len() && now[k] == coin;
            if k < before.len() {
                assert(before[k] == coin);
            }
        }
        if rows.last().coin@ == coin && listed(wanted, coin) && !before.contains(coin) {
            assert(now[now.len() - 1] == coin);
        }
    }
}

/// A rate is that of a row of a coin.
pub open spec fn stems_from_a_row(rows: Seq<HistoryRow>, coin: Seq<char>, p: FundingPoint) -> bool {
    exists|i: int|
        0 <= i < rows.len() && (#[trigger] rows[i]).coin@ == coin && rows[i].time_ms == p.time_ms
            && rows[i].rate == p.rate
}

/// The history of a coin holds the rate of each of its rows, and nothing else.
pub proof fn histories_hold_the_rows_of_their_coin(rows: Seq<HistoryRow>, coin: Seq<char>)
    ensures
        points_of(rows, coin).len() <= rows.len(),
        forall|i: int|
            0 <= i < rows.len() && (#[trigger] rows[i]).coin@ == coin ==> points_of(
                rows,
                coin,
            ).contains(FundingPoint { time_ms: rows[i].time_ms, rate: rows[i].rate }),
        forall|k: int|
            0 <= k < points_of(rows, coin).len() ==> stems_from_a_row(
                rows,
                coin,
                #[trigger] points_of(rows, coin)[k],
            ),
    decreases rows.len(),
{
    if rows.len() > 0 {
        let rest = rows.drop_last();
        let last = rows.len() - 1;
        histories_hold_the_rows_of_their_coin(rest, coin);
        let before = points_of(rest, coin);
        let now = points_of(rows, coin);
        assert forall|i: int|
            0 <= i < rows.len() && (#[trigger] rows[i]).coin@ == coin implies now.contains(
            FundingPoint { time_ms: rows[i].time_ms, rate: rows[i].rate },
        ) by {
            let p = FundingPoint { time_ms: rows[i].time_ms, rate: rows[i].rate };
            if i < last {
                assert(rest[i] == rows[i]);
                assert(before.contains(p));
                let k = choose|k: int| 0 <= k < before.len() && before[k] == p;
                assert(now[k] == p);
            } else {
                assert(now[now.len() - 1] == p);
            }
        }
        assert forall|k: int| 0 <= k < now.len() implies stems_from_a_row(
            rows,
            coin,
            #[trigger] now[k],
        ) by {
            if k < before.len() {
                assert(now[k] == before[k]);
                assert(stems_from_a_row(rest, coin, before[k]));
                let i = choose|i: int|
                    0 <= i < rest.len() && (#[trigger] rest[i]).coin@ == coin && rest[i].time_ms
                        == before[k].time_ms && rest[i].rate == before[k].rate;
                assert(rows[i] == rest[i]);
            } else {
                assert(rows[last].coin@ == coin);
            }
        }
    }
}

/// The volume of a wanted coin is that of its last row.
pub proof fn the_last_volume_counts(
    rows: Seq<VolumeRow>,
    wanted: Seq<String>,
    coin: Seq<char>,
    i: int,
)
    requires
        listed(wanted, coin),
        0 <= i < rows.len(),
        rows[i].asset@ == coin,
        forall|j: int| i < j < rows.len() ==> (#[trigger] rows[j]).asset@ != coin,
    ensures
        volume_of(rows, wanted, coin) == rows[i].volume,
    decreases rows.len(),
{
    let last = rows.len() - 1;
    assert(rows.last() == rows[last]);
    if i < last {
        let rest = rows.drop_last();
        assert forall|j: int| i < j < rest.len() implies (#[trigger] rest[j]).asset@ != coin by {
            assert(rest[j] == rows[j]);
        }
        assert(rest[i] == rows[i]);
        assert(rows[last].asset@ != coin);
        the_last_volume_counts(rest, wanted, coin, i);
    }
}

} // verus!
