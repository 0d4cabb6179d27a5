//! Which rates of a history count: those from which a coin is judged, those that a position
//! receives, and the one at which it is left.

use crate::backtest::{
    apr_at_spec, apr_of, aprs_of, before, in_time_order, rate_between, state_at_spec, until,
    until_splits_the_history,
};
use crate::backtest::{BacktestArgs, CoinSeries, FundingPoint, Position, Side, Trade, HOUR_MS};
use crate::binary64::Binary64;
use crate::simulation::{
    accrued, all_accrued, closing, entries, exit_apr, first_hour, hour_count, hour_time, kept,
    last_hour, left, lemma_entries, lemma_hours, lemma_kept_members, period_fits, positions_after,
    seconds, simulated, snap_of, trades_after,
};
use crate::stats::spread_spec;
use crate::trading_laws::{exit_of, lemma_hour_bounds, lemma_left_members};
use vstd::prelude::*;

verus! {

// The funding of an hour.

/// The rate between two times is that of the last point after the first and not after the second.
pub proof fn the_last_point_in_between_counts(
    points: Seq<FundingPoint>,
    low: int,
    high: int,
    i: int,
)
    requires
        0 <= i < points.len(),
        low < points[i].time_ms <= high,
        forall|j: int|
            i < j < points.len() ==> !(low < (#[trigger] points[j]).time_ms && points[j].time_ms
                <= high),
    ensures
        rate_between(points, low, high) == Some(points[i].rate),
    decreases points.len(),
{
    let last = points.len() - 1;
    assert(points.last() == points[last]);
    if i < last {
        let rest = points.drop_last();
        assert forall|j: int| i < j < rest.len() implies !(low < (#[trigger] rest[j]).time_ms
            && rest[j].time_ms <= high) by {
            assert(rest[j] == points[j]);
        }
        assert(rest[i] == points[i]);
        the_last_point_in_between_counts(rest, low, high, i);
    }
}

/// Where no point lies between two times there is no rate.
pub proof fn no_point_in_between_is_no_rate(points: Seq<FundingPoint>, low: int, high: int)
    requires
        forall|j: int|
            0 <= j < points.len() ==> !(low < (#[trigger] points[j]).time_ms && points[j].time_ms
                <= high),
    ensures
        rate_between(points, low, high) is None,
    decreases points.len(),
{
    if points.len() > 0 {
        assert(points.last() == points[points.len() - 1]);
        let rest = points.drop_last();
        assert forall|j: int| 0 <= j < rest.len() implies !(low < (#[trigger] rest[j]).time_ms
            && rest[j].time_ms <= high) by {
            assert(rest[j] == points[j]);
        }
        no_point_in_between_is_no_rate(rest, low, high);
    }
}

/// A point is paid in the hour that ends at `t`, its end included: it is the last one of those
/// 3600000 milliseconds.
pub open spec fn paid_at(points: Seq<FundingPoint>, t: int, i: int) -> bool {
    &&& 0 <= i < points.len()
    &&& t - 3_600_000 < points[i].time_ms <= t
    &&& forall|j: int|
        i < j < points.len() ==> !(t - 3_600_000 < (#[trigger] points[j]).time_ms
            && points[j].time_ms <= t)
}

/// What a position of a size on a side receives at a rate.
pub open spec fn receipt(side: Side, size: Binary64, rate: Binary64) -> Binary64 {
    match side {
        Side::Long => rate.negated_spec().times_spec(size),
        Side::Short => rate.times_spec(size),
    }
}

/// An open position receives the rate that is paid in an hour, on its size, and nothing else of it
/// changes.
pub proof fn the_rate_of_the_hour_is_received(
    series: Seq<CoinSeries>,
    p: Position,
    t: int,
    i: int,
)
    requires
        paid_at(series[p.asset as int].points@, t, i),
    ensures
        accrued(series, p, t) == (Position {
            accumulated_pnl: p.accumulated_pnl.plus_spec(
                receipt(p.side, p.size_usd, series[p.asset as int].points@[i].rate),
            ),
            ..p
        }),
{
    the_last_point_in_between_counts(
        series[p.asset as int].points@,
        t - 3_600_000,
        t,
        i,
    );
}

/// In an hour in which no rate is paid, nothing is received.
pub proof fn an_hour_without_a_rate_pays_nothing(series: Seq<CoinSeries>, p: Position, t: int)
    requires
        forall|j: int|
            0 <= j < series[p.asset as int].points@.len() ==> !(t - 3_600_000 < (
            #[trigger] series[p.asset as int].points@[j]).time_ms
                && series[p.asset as int].points@[j].time_ms <= t),
    ensures
        accrued(series, p, t) == p,
{
    no_point_in_between_is_no_rate(series[p.asset as int].points@, t - 3_600_000, t);
}

// The funding of a trade.

/// What a position receives in the first `hours` hours after it was opened, hour by hour.
pub open spec fn received(
    points: Seq<FundingPoint>,
    side: Side,
    size: Binary64,
    entry_ms: int,
    hours: nat,
) -> Binary64
    decreases hours,
{
    if hours == 0 {
        Binary64::whole(0)
    } else {
        let before = received(points, side, size, entry_ms, (hours - 1) as nat);
        let t = entry_ms + hours * 3_600_000;
        if exists|i: int| paid_at(points, t, i) {
            let i = choose|i: int| paid_at(points, t, i);
            before.plus_spec(receipt(side, size, points[i].rate))
        } else {
            before
        }
    }
}

/// The last member of a range that passes is found by going back from its end.
proof fn lemma_last_in_hour(points: Seq<FundingPoint>, t: int, n: int)
    requires
        0 <= n <= points.len(),
        exists|j: int| 0 <= j < n && t - 3_600_000 < (#[trigger] points[j]).time_ms <= t,
        forall|j: int|
            n <= j < points.len() ==> !(t - 3_600_000 < (#[trigger] points[j]).time_ms
                && points[j].time_ms <= t),
    ensures
        exists|i: int| paid_at(points, t, i),
    decreases n,
{
    if t - 3_600_000 < points[n - 1].time_ms <= t {
        assert(paid_at(points, t, n - 1));
    } else {
        lemma_last_in_hour(points, t, n - 1);
    }
}

proof fn lemma_accrued_by_hour(series: Seq<CoinSeries>, p: Position, t: int)
    ensures
        ({
            let points = series[p.asset as int].points@;
            if exists|i: int| paid_at(points, t, i) {
                let i = choose|i: int| paid_at(points, t, i);
                accrued(series, p, t) == (Position {
                    accumulated_pnl: p.accumulated_pnl.plus_spec(
                        receipt(p.side, p.size_usd, points[i].rate),
                    ),
                    ..p
                })
            } else {
                accrued(series, p, t) == p
            }
        }),
{
    let points = series[p.asset as int].points@;
    if exists|i: int| paid_at(points, t, i) {
        let i = choose|i: int| paid_at(points, t, i);
        the_rate_of_the_hour_is_received(series, p, t, i);
    } else {
        assert forall|j: int| 0 <= j < points.len() implies !(t - 3_600_000 < (
        #[trigger] points[j]).time_ms && points[j].time_ms <= t) by {
            if t - 3_600_000 < points[j].time_ms <= t {
                lemma_last_in_hour(points, t, points.len() as int);
            }
        }
        an_hour_without_a_rate_pays_nothing(series, p, t);
    }
}

/// A position was opened in the hour `k` and has received the funding of the hours up to `m`.
spec fn funded(
    series: Seq<CoinSeries>,
    start_ms: int,
    p: Position,
    k: int,
    m: int,
) -> bool {
    &&& 0 <= k <= m
    &&& p.entry_time_sec == seconds(hour_time(start_ms, k))
    &&& p.accumulated_pnl == received(
        series[p.asset as int].points@,
        p.side,
        p.size_usd,
        hour_time(start_ms, k),
        (m - k) as nat,
    )
}

/// A position has received the funding of the hours up to `m`.
spec fn is_funded(series: Seq<CoinSeries>, start_ms: int, p: Position, m: int) -> bool {
    exists|k: int| funded(series, start_ms, p, k, m)
}

spec fn all_funded(series: Seq<CoinSeries>, start_ms: int, ps: Seq<Position>, m: int) -> bool {
    forall|i: int| 0 <= i < ps.len() ==> is_funded(series, start_ms, #[trigger] ps[i], m)
}

proof fn lemma_funded_step(series: Seq<CoinSeries>, start_ms: int, p: Position, k: int, m: int)
    requires
        funded(series, start_ms, p, k, m - 1),
    ensures
        funded(series, start_ms, accrued(series, p, hour_time(start_ms, m)), k, m),
{
    let t = hour_time(start_ms, m);
    let n = (m - k) as nat;
    assert(hour_time(start_ms, k) + n * 3_600_000 == t) by {
        assert(k * HOUR_MS + n * 3_600_000 == m * HOUR_MS) by (nonlinear_arith)
            requires
                n == m - k,
                HOUR_MS == 3_600_000,
        ;
    }
    lemma_accrued_by_hour(series, p, t);
}

proof fn lemma_all_funded(
    args: BacktestArgs,
    series: Seq<CoinSeries>,
    start_ms: int,
    end_ms: int,
    h: nat,
)
    requires
        series.len() <= usize::MAX,
        period_fits(start_ms, end_ms),
        h <= hour_count(start_ms, end_ms),
    ensures
        all_funded(series, start_ms, positions_after(args, series, start_ms, h), h - 1),
    decreases h,
{
    if h > 0 {
        let m = h - 1;
        let t = hour_time(start_ms, m);
        lemma_all_funded(args, series, start_ms, end_ms, m as nat);
        lemma_hour_bounds(start_ms, end_ms, m);
        let ps = positions_after(args, series, start_ms, m as nat);
        let acc = all_accrued(series, ps, t);
        lemma_accrued_funded(series, start_ms, ps, m);
        let stayed = kept(args, series, acc, t);
        lemma_kept_members(args, series, acc, t);
        lemma_entries(args, series, stayed, t);
        let fresh = entries(args, series, stayed, t);
        let all = positions_after(args, series, start_ms, h);
        assert(all == stayed + fresh);
        assert forall|i: int| 0 <= i < all.len() implies is_funded(
            series,
            start_ms,
            #[trigger] all[i],
            m,
        ) by {
            if i < stayed.len() {
                assert(all[i] == stayed[i]);
                let j = choose|j: int| 0 <= j < acc.len() && acc[j] == stayed[i];
                assert(is_funded(series, start_ms, acc[j], m));
                let k = choose|k: int| funded(series, start_ms, acc[j], k, m);
                assert(funded(series, start_ms, all[i], k, m));
            } else {
                assert(all[i] == fresh[i - stayed.len()]);
                assert(funded(series, start_ms, all[i], m, m));
            }
        }
    }
}

proof fn lemma_accrued_funded(
    series: Seq<CoinSeries>,
    start_ms: int,
    ps: Seq<Position>,
    m: int,
)
    requires
        all_funded(series, start_ms, ps, m - 1),
    ensures
        all_funded(series, start_ms, all_accrued(series, ps, hour_time(start_ms, m)), m),
{
    let t = hour_time(start_ms, m);
    let acc = all_accrued(series, ps, t);
    assert forall|i: int| 0 <= i < acc.len() implies is_funded(
        series,
        start_ms,
        #[trigger] acc[i],
        m,
    ) by {
        let e = m - 1;
        assert(acc[i] == accrued(series, ps[i], t));
        assert(is_funded(series, start_ms, ps[i], e));
        let k = choose|k: int| funded(series, start_ms, ps[i], k, e);
        lemma_funded_step(series, start_ms, ps[i], k, m);
        assert(funded(series, start_ms, acc[i], k, m));
    }
}

/// A trade received the funding of the hours from its entry to its exit.
pub open spec fn well_paid(series: Seq<CoinSeries>, tr: Trade) -> bool {
    &&& tr.entry_time_sec <= tr.exit_time_sec
    &&& tr.gross_funding_pnl == received(
        series[tr.asset as int].points@,
        tr.side,
        tr.size_usd,
        tr.entry_time_sec * 1000,
        ((tr.exit_time_sec - tr.entry_time_sec) / 3600) as nat,
    )
}

proof fn lemma_exit_is_paid(
    series: Seq<CoinSeries>,
    start_ms: int,
    end_ms: int,
    p: Position,
    k: int,
    m: int,
    tr: Trade,
)
    requires
        period_fits(start_ms, end_ms),
        0 <= m < hour_count(start_ms, end_ms),
        funded(series, start_ms, p, k, m),
        tr.asset == p.asset,
        tr.side == p.side,
        tr.size_usd == p.size_usd,
        tr.entry_time_sec == p.entry_time_sec,
        tr.exit_time_sec == seconds(hour_time(start_ms, m)) as i64,
        tr.gross_funding_pnl == p.accumulated_pnl,
    ensures
        well_paid(series, tr),
{
    lemma_hour_bounds(start_ms, end_ms, k);
    lemma_hour_bounds(start_ms, end_ms, m);
    let a = hour_time(start_ms, k);
    let b = hour_time(start_ms, m);
    assert(b - a == (m - k) * 3_600_000) by (nonlinear_arith)
        requires
            a == first_hour(start_ms) + k * 3_600_000,
            b == first_hour(start_ms) + m * 3_600_000,
    ;
    assert((b / 1000 - a / 1000) / 3600 == m - k);
}

proof fn lemma_paid_until(
    args: BacktestArgs,
    series: Seq<CoinSeries>,
    start_ms: int,
    end_ms: int,
    h: nat,
)
    requires
        series.len() <= usize::MAX,
        period_fits(start_ms, end_ms),
        h <= hour_count(start_ms, end_ms),
    ensures
        forall|i: int|
            0 <= i < trades_after(args, series, start_ms, h).len() ==> well_paid(
                series,
                #[trigger] trades_after(args, series, start_ms, h)[i],
            ),
    decreases h,
{
    if h > 0 {
        let m = h - 1;
        let t = hour_time(start_ms, m);
        lemma_paid_until(args, series, start_ms, end_ms, m as nat);
        lemma_all_funded(args, series, start_ms, end_ms, m as nat);
        let ps = positions_after(args, series, start_ms, m as nat);
        lemma_accrued_funded(series, start_ms, ps, m);
        let acc = all_accrued(series, ps, t);
        let place = lemma_left_members(args, series, acc, t);
        let before = trades_after(args, series, start_ms, m as nat);
        let fresh = left(args, series, acc, t);
        let now = trades_after(args, series, start_ms, h);
        assert(now == before + fresh);
        assert forall|i: int| 0 <= i < now.len() implies well_paid(series, #[trigger] now[i]) by {
            if i < before.len() {
                assert(now[i] == before[i]);
            } else {
                let j = i - before.len();
                assert(now[i] == fresh[j]);
                let p = acc[place[j]];
                assert(is_funded(series, start_ms, p, m));
                let k = choose|k: int| funded(series, start_ms, p, k, m);
                lemma_exit_is_paid(series, start_ms, end_ms, p, k, m, now[i]);
            }
        }
    }
}

/// Every trade of a backtest received the funding of each hour after its entry, up to and
/// with that of its exit: the rate paid in the hour on its size, a short position as it is and a
/// long one with the other sign.
pub proof fn every_trade_receives_the_funding_of_its_hours(
    args: BacktestArgs,
    series: Seq<CoinSeries>,
    start_ms: int,
    end_ms: int,
)
    requires
        series.len() <= usize::MAX,
        period_fits(start_ms, end_ms),
    ensures
        forall|i: int|
            0 <= i < simulated(args, series, start_ms, end_ms).len() ==> well_paid(
                series,
                #[trigger] simulated(args, series, start_ms, end_ms)[i],
            ),
{
    let n = hour_count(start_ms, end_ms);
    lemma_paid_until(args, series, start_ms, end_ms, n);
    lemma_all_funded(args, series, start_ms, end_ms, n);
    lemma_hours(start_ms, end_ms);
    let ps = positions_after(args, series, start_ms, n);
    let before = trades_after(args, series, start_ms, n);
    let t = last_hour(end_ms);
    let tail = closing(args, series, ps, t);
    let all = simulated(args, series, start_ms, end_ms);
    assert(all == before + tail);
    assert forall|i: int| 0 <= i < all.len() implies well_paid(series, #[trigger] all[i]) by {
        if i < before.len() {
            assert(all[i] == before[i]);
        } else {
            let p = ps[i - before.len()];
            assert(all[i] == tail[i - before.len()]);
            let m = n - 1;
            assert(is_funded(series, start_ms, p, m));
            let k = choose|k: int| funded(series, start_ms, p, k, m);
            lemma_exit_is_paid(series, start_ms, end_ms, p, k, m, all[i]);
        }
    }
}

/// A rate on every whole hour and no other: the `i`-th one is `i` hours after the first.
pub open spec fn on_the_hour(points: Seq<FundingPoint>) -> bool {
    &&& points.len() > 0
    &&& points[0].time_ms % 3_600_000 == 0
    &&& forall|i: int|
        0 <= i < points.len() ==> (#[trigger] points[i]).time_ms == points[0].time_ms + i
            * 3_600_000
}

/// The sum of what a position receives at the rates after the place `from`, `count` of them.
pub open spec fn sum_of_receipts(
    points: Seq<FundingPoint>,
    side: Side,
    size: Binary64,
    from: int,
    count: nat,
) -> Binary64
    decreases count,
{
    if count == 0 {
        Binary64::whole(0)
    } else {
        sum_of_receipts(points, side, size, from, (count - 1) as nat).plus_spec(
            receipt(side, size, points[from + count].rate),
        )
    }
}

proof fn lemma_hourly_sum(
    points: Seq<FundingPoint>,
    side: Side,
    size: Binary64,
    from: int,
    hours: nat,
)
    requires
        on_the_hour(points),
        0 <= from,
        from + hours < points.len(),
    ensures
        received(points, side, size, points[0].time_ms + from * 3_600_000, hours)
            == sum_of_receipts(points, side, size, from, hours),
    decreases hours,
{
    if hours > 0 {
        lemma_hourly_sum(points, side, size, from, (hours - 1) as nat);
        let first = points[0].time_ms as int;
        let t = first + from * 3_600_000 + hours * 3_600_000;
        let x = from + hours;
        assert(points[x].time_ms == t);
        assert forall|j: int| x < j < points.len() implies !(t - 3_600_000 < (
        #[trigger] points[j]).time_ms && points[j].time_ms <= t) by {
            assert(points[j].time_ms == first + j * 3_600_000);
        }
        assert(paid_at(points, t, x));
        let i = choose|i: int| paid_at(points, t, i);
        assert(points[i].time_ms == first + i * 3_600_000);
        assert(i == x);
    }
}

/// With a rate on every whole hour, the funding of a trade is the sum of the rates of the hours
/// after its entry, up to and with the hour of its exit, each on its size.
pub proof fn hourly_rates_add_up(
    args: BacktestArgs,
    series: Seq<CoinSeries>,
    start_ms: int,
    end_ms: int,
    i: int,
    from: int,
)
    requires
        series.len() <= usize::MAX,
        period_fits(start_ms, end_ms),
        0 <= i < simulated(args, series, start_ms, end_ms).len(),
        ({
            let tr = simulated(args, series, start_ms, end_ms)[i];
            let points = series[tr.asset as int].points@;
            &&& on_the_hour(points)
            &&& 0 <= from < points.len()
            &&& points[from].time_ms == tr.entry_time_sec * 1000
            &&& from + (tr.exit_time_sec - tr.entry_time_sec) / 3600 < points.len()
        }),
    ensures
        ({
            let tr = simulated(args, series, start_ms, end_ms)[i];
            tr.gross_funding_pnl == sum_of_receipts(
                series[tr.asset as int].points@,
                tr.side,
                tr.size_usd,
                from,
                ((tr.exit_time_sec - tr.entry_time_sec) / 3600) as nat,
            )
        }),
{
    every_trade_receives_the_funding_of_its_hours(args, series, start_ms, end_ms);
    let tr = simulated(args, series, start_ms, end_ms)[i];
    let points = series[tr.asset as int].points@;
    assert(well_paid(series, tr));
    lemma_hourly_sum(
        points,
        tr.side,
        tr.size_usd,
        from,
        ((tr.exit_time_sec - tr.entry_time_sec) / 3600) as nat,
    );
}

// The rates from which a coin is judged.

/// The place behind the last point up to a time.
proof fn lemma_until_at(points: Seq<FundingPoint>, t: int, n: nat)
    requires
        in_time_order(points),
        n <= points.len(),
        n > 0 ==> points[n - 1].time_ms <= t,
        n < points.len() ==> points[n as int].time_ms > t,
    ensures
        until(points, t) == n,
{
    until_splits_the_history(points, t);
    let k = until(points, t);
    if k < n {
        assert(points[n - 1].time_ms > t);
    }
    if k > n {
        assert(points[n as int].time_ms <= t);
    }
}

/// A coin is judged at `t` by the points of a window that ends then, both ends included: where
/// they are those from `from` to before `to`, the rate is that of the last one, and the count and
/// the deviation are theirs.
pub proof fn readings_come_from_the_window(
    points: Seq<FundingPoint>,
    t: int,
    lookback: int,
    volume_log: Binary64,
    from: nat,
    to: nat,
)
    requires
        in_time_order(points),
        from < to <= points.len() <= usize::MAX,
        forall|i: int|
            0 <= i < points.len() ==> (from <= i < to <==> t - lookback <= (
            #[trigger] points[i]).time_ms && points[i].time_ms <= t),
    ensures
        ({
            let s = state_at_spec(points, t, lookback, volume_log);
            &&& s is Some
            &&& s->0.apr_now == apr_of(points[to - 1].rate)
            &&& s->0.count == to - from
            &&& s->0.std_pct == spread_spec(
                aprs_of(points.subrange(from as int, to as int)),
            ).std_pct
        }),
{
    assert(points[from as int].time_ms <= points[to - 1].time_ms);
    if to < points.len() {
        assert(points[to - 1].time_ms <= points[to as int].time_ms);
    }
    lemma_until_at(points, t, to);
    if from > 0 {
        assert(points[from - 1].time_ms <= points[from as int].time_ms);
    }
    lemma_until_at(points, t - lookback - 1, from);
    assert(before(points, t - lookback) == from);
}

/// Without a point in the window nothing is known of a coin.
pub proof fn an_empty_window_tells_nothing(
    points: Seq<FundingPoint>,
    t: int,
    lookback: int,
    volume_log: Binary64,
)
    requires
        in_time_order(points),
        lookback >= 0,
        forall|i: int|
            0 <= i < points.len() ==> !(t - lookback <= (#[trigger] points[i]).time_ms
                && points[i].time_ms <= t),
    ensures
        state_at_spec(points, t, lookback, volume_log) is None,
{
    until_splits_the_history(points, t);
    until_splits_the_history(points, t - lookback - 1);
    let from = before(points, t - lookback);
    let to = until(points, t);
    if from < to {
        assert(points[from as int].time_ms <= t);
        assert(points[from as int].time_ms > t - lookback - 1);
    }
}

/// In a replay the window is the last day: 86400000 milliseconds.
pub proof fn coins_are_judged_by_the_last_day(
    series: Seq<CoinSeries>,
    c: int,
    t: int,
    from: nat,
    to: nat,
)
    requires
        in_time_order(series[c].points@),
        from < to <= series[c].points@.len() <= usize::MAX,
        forall|i: int|
            0 <= i < series[c].points@.len() ==> (from <= i < to <==> t - 86_400_000 <= (
            #[trigger] series[c].points@[i]).time_ms && series[c].points@[i].time_ms <= t),
    ensures
        ({
            let s = snap_of(series, c, t);
            &&& s is Some
            &&& s->0.apr_now == apr_of(series[c].points@[to - 1].rate)
            &&& s->0.count == to - from
        }),
{
    reveal(snap_of);
    readings_come_from_the_window(
        series[c].points@,
        t,
        86_400_000,
        series[c].volume_log,
        from,
        to,
    );
}

/// The rate in force at a time is that of the last point up to it.
pub proof fn the_last_point_is_in_force(points: Seq<FundingPoint>, t: int, i: int)
    requires
        in_time_order(points),
        0 <= i < points.len(),
        points[i].time_ms <= t,
        i + 1 < points.len() ==> points[i + 1].time_ms > t,
    ensures
        apr_at_spec(points, t) == Some(apr_of(points[i].rate)),
{
    lemma_until_at(points, t, (i + 1) as nat);
}

/// Before the first point no rate is in force.
pub proof fn no_rate_is_in_force_before_the_first(points: Seq<FundingPoint>, t: int)
    requires
        in_time_order(points),
        points.len() > 0 ==> points[0].time_ms > t,
    ensures
        apr_at_spec(points, t) is None,
{
    lemma_until_at(points, t, 0);
}

/// A position is left at the rate in force then, whether it comes from the window or from before
/// it.
pub proof fn the_rate_at_the_exit_is_the_one_in_force(series: Seq<CoinSeries>, c: int, t: int)
    requires
        in_time_order(series[c].points@),
    ensures
        exit_apr(series, c, t) == apr_at_spec(series[c].points@, t),
{
    reveal(snap_of);
    until_splits_the_history(series[c].points@, t);
    until_splits_the_history(series[c].points@, t - 86_400_000 - 1);
}

// The hours of a replay.

/// The first hour of a replay is the last whole hour that is not after the start and a day, and
/// the last one is the last whole hour that is not after the end.
pub proof fn the_replay_begins_a_day_after_the_start(start_ms: int, end_ms: int)
    requires
        start_ms >= 0,
        end_ms >= 0,
    ensures
        first_hour(start_ms) <= start_ms + 86_400_000 < first_hour(start_ms) + 3_600_000,
        first_hour(start_ms) % 3_600_000 == 0,
        last_hour(end_ms) <= end_ms < last_hour(end_ms) + 3_600_000,
        last_hour(end_ms) % 3_600_000 == 0,
{
    reveal(first_hour);
    reveal(last_hour);
}

/// The hours of a replay follow each other without a gap.
pub proof fn the_replay_goes_hour_by_hour(start_ms: int, h: int)
    ensures
        hour_time(start_ms, 0) == first_hour(start_ms),
        hour_time(start_ms, h + 1) - hour_time(start_ms, h) == 3_600_000,
{
}

/// No trade is entered before the windows are full, and none ends after the period.
pub proof fn trades_lie_in_the_period(
    args: BacktestArgs,
    series: Seq<CoinSeries>,
    start_ms: int,
    end_ms: int,
    i: int,
)
    requires
        series.len() <= usize::MAX,
        period_fits(start_ms, end_ms),
        start_ms >= 0,
        end_ms >= 0,
        0 <= i < simulated(args, series, start_ms, end_ms).len(),
    ensures
        ({
            let tr = simulated(args, series, start_ms, end_ms)[i];
            &&& start_ms + 82_800_000 < tr.entry_time_sec * 1000
            &&& tr.exit_time_sec * 1000 <= end_ms
        }),
{
    let n = hour_count(start_ms, end_ms);
    the_replay_begins_a_day_after_the_start(start_ms, end_ms);
    lemma_hours(start_ms, end_ms);
    crate::trading_laws::every_trade_is_lawful(args, series, start_ms, end_ms);
    let all = simulated(args, series, start_ms, end_ms);
    let tr = all[i];
    assert(crate::trading_laws::lawful_trade(args, series, start_ms, end_ms, tr));
    let k = choose|k: int|
        0 <= k && crate::trading_laws::entered_in(args, series, start_ms, tr, k);
    let t = hour_time(start_ms, k);
    assert(t % 1000 == 0) by {
        assert(t == first_hour(start_ms) + k * 3_600_000);
        assert(first_hour(start_ms) % 1000 == 0) by {
            vstd::arithmetic::div_mod::lemma_mod_mod(first_hour(start_ms), 1000, 3600);
        }
    }
    lemma_exits_in_time(args, series, start_ms, end_ms, n);
    let before = trades_after(args, series, start_ms, n);
    let ps = positions_after(args, series, start_ms, n);
    let tail = closing(args, series, ps, last_hour(end_ms));
    assert(all == before + tail);
    if i < before.len() {
        assert(all[i] == before[i]);
    } else {
        assert(all[i] == tail[i - before.len()]);
    }
}

proof fn lemma_exits_in_time(
    args: BacktestArgs,
    series: Seq<CoinSeries>,
    start_ms: int,
    end_ms: int,
    h: nat,
)
    requires
        period_fits(start_ms, end_ms),
        h <= hour_count(start_ms, end_ms),
    ensures
        forall|i: int|
            0 <= i < trades_after(args, series, start_ms, h).len() ==> (#[trigger] trades_after(
                args,
                series,
                start_ms,
                h,
            )[i]).exit_time_sec * 1000 <= last_hour(end_ms),
    decreases h,
{
    if h > 0 {
        let m = h - 1;
        let t = hour_time(start_ms, m);
        lemma_exits_in_time(args, series, start_ms, end_ms, m as nat);
        lemma_hour_bounds(start_ms, end_ms, m);
        let ps = positions_after(args, series, start_ms, m as nat);
        let acc = all_accrued(series, ps, t);
        let place = lemma_left_members(args, series, acc, t);
        let before = trades_after(args, series, start_ms, m as nat);
        let fresh = left(args, series, acc, t);
        let now = trades_after(args, series, start_ms, h);
        assert(now == before + fresh);
        assert forall|i: int| 0 <= i < now.len() implies (#[trigger] now[i]).exit_time_sec * 1000
            <= last_hour(end_ms) by {
            if i < before.len() {
                assert(now[i] == before[i]);
            } else {
                let j = i - before.len();
                assert(now[i] == fresh[j]);
                assert(now[i] == exit_of(args, series, acc[place[j]], t));
                assert(now[i].exit_time_sec == seconds(t));
            }
        }
    }
}

} // verus!
