//! Figures of a list of trades: totals, shares, the daily results and the drawdown.

use crate::backtest::Trade;
use crate::binary64::Binary64;
use crate::order::{by_rising_time, descending, time_keys};
use crate::simulation::truncated;
use crate::stats::{mean, mean_of};
use vstd::prelude::*;

verus! {

/// A day in seconds.
pub const DAY_SEC: i64 = 86_400;

/// A figure of a trade.
#[derive(Clone, Copy, Debug, PartialEq, Eq, Structural)]
pub enum Figure {
    Gross,
    Net,
    EntryCost,
    ExitCost,
    BothCosts,
    /// The absolute rate at entry.
    EntryRate,
}

pub open spec fn figure_of(t: Trade, f: Figure) -> Binary64 {
    match f {
        Figure::Gross => t.gross_funding_pnl,
        Figure::Net => t.net_pnl,
        Figure::EntryCost => t.entry_cost,
        Figure::ExitCost => t.exit_cost,
        Figure::BothCosts => t.entry_cost.plus_spec(t.exit_cost),
        Figure::EntryRate => t.funding_apr_at_entry.abs_spec(),
    }
}

/// The figures of the trades.
pub open spec fn figures(trades: Seq<Trade>, f: Figure) -> Seq<Binary64> {
    trades.map_values(|t: Trade| figure_of(t, f))
}

fn figure(t: &Trade, f: Figure) -> (r: Binary64)
    ensures
        r == figure_of(*t, f),
{
    match f {
        Figure::Gross => t.gross_funding_pnl,
        Figure::Net => t.net_pnl,
        Figure::EntryCost => t.entry_cost,
        Figure::ExitCost => t.exit_cost,
        Figure::BothCosts => t.entry_cost.plus(t.exit_cost),
        Figure::EntryRate => t.funding_apr_at_entry.abs(),
    }
}

/// The figures of the trades.
pub fn list_figures(trades: &Vec<Trade>, f: Figure) -> (r: Vec<Binary64>)
    ensures
        r@ == figures(trades@, f),
{
    let mut out: Vec<Binary64> = Vec::new();
    let n: usize = trades.len();
    let mut i: usize = 0;
    while i < n
        invariant
            n == trades@.len(),
            i <= n,
            out@ == figures(trades@.take(i as int), f),
        decreases n - i,
    {
        out.push(figure(&trades[i], f));
        i = i + 1;
        assert(out@ =~= figures(trades@.take(i as int), f));
    }
    assert(trades@.take(n as int) =~= trades@);
    out
}

/// How many members are above zero.
pub open spec fn gains(xs: Seq<Binary64>) -> nat
    decreases xs.len(),
{
    if xs.len() == 0 {
        0
    } else if xs.last().above(0) {
        gains(xs.drop_last()) + 1
    } else {
        gains(xs.drop_last())
    }
}

/// How many members are below zero.
pub open spec fn losses(xs: Seq<Binary64>) -> nat
    decreases xs.len(),
{
    if xs.len() == 0 {
        0
    } else if xs.last().below(0) {
        losses(xs.drop_last()) + 1
    } else {
        losses(xs.drop_last())
    }
}

/// How many members are above zero.
pub fn count_gains(xs: &Vec<Binary64>) -> (r: usize)
    ensures
        r == gains(xs@),
        r <= xs@.len(),
{
    let n: usize = xs.len();
    let mut count: usize = 0;
    let mut i: usize = 0;
    while i < n
        invariant
            n == xs@.len(),
            count <= i <= n,
            count == gains(xs@.take(i as int)),
        decreases n - i,
    {
        assert(xs@.take(i + 1).drop_last() =~= xs@.take(i as int));
        if xs[i].is_above(0) {
            count = count + 1;
        }
        i = i + 1;
    }
    assert(xs@.take(n as int) =~= xs@);
    count
}

/// How many members are below zero.
pub fn count_losses(xs: &Vec<Binary64>) -> (r: usize)
    ensures
        r == losses(xs@),
        r <= xs@.len(),
{
    let n: usize = xs.len();
    let mut count: usize = 0;
    let mut i: usize = 0;
    while i < n
        invariant
            n == xs@.len(),
            count <= i <= n,
            count == losses(xs@.take(i as int)),
        decreases n - i,
    {
        assert(xs@.take(i + 1).drop_last() =~= xs@.take(i as int));
        if xs[i].is_below(0) {
            count = count + 1;
        }
        i = i + 1;
    }
    assert(xs@.take(n as int) =~= xs@);
    count
}

/// No member is both a gain and a loss.
pub proof fn gains_and_losses_are_apart(xs: Seq<Binary64>)
    ensures
        gains(xs) + losses(xs) <= xs.len(),
    decreases xs.len(),
{
    if xs.len() > 0 {
        gains_and_losses_are_apart(xs.drop_last());
        let x = xs.last();
        assert(!(x.above(0) && x.below(0))) by {
            crate::arithmetic::small_wholes_are_exact(0);
        }
    }
}

/// `n / total * 100`.
pub open spec fn share(n: nat, total: nat) -> Binary64 {
    Binary64::whole(n as int).over_spec(Binary64::whole(total as int)).times_spec(
        Binary64::whole(100),
    )
}

/// A count in percent of a total.
pub fn share_of(n: usize, total: usize) -> (r: Binary64)
    ensures
        r == share(n as nat, total as nat),
{
    Binary64::from_count(n).over(Binary64::from_count(total)).times(Binary64::from_whole(100))
}

/// `total / capital * 100`.
pub open spec fn return_on(total: Binary64, capital: Binary64) -> Binary64 {
    total.over_spec(capital).times_spec(Binary64::whole(100))
}

/// A return over some days, scaled to a year: `pct * 365 / days`.
pub open spec fn per_year(pct: Binary64, days: nat) -> Binary64 {
    pct.times_spec(Binary64::whole(365)).over_spec(Binary64::whole(days as int))
}

/// A result in percent of the capital.
pub fn return_pct(total: Binary64, capital: Binary64) -> (r: Binary64)
    ensures
        r == return_on(total, capital),
{
    total.over(capital).times(Binary64::from_whole(100))
}

/// A return over some days, scaled to a year.
pub fn yearly(pct: Binary64, days: u32) -> (r: Binary64)
    ensures
        r == per_year(pct, days as nat),
{
    pct.times(Binary64::from_whole(365)).over(Binary64::from_whole(days as i64))
}

// The drawdown.

/// A running total, its peak so far (zero at least) and the deepest fall from a peak so far.
#[derive(Clone, Copy, Debug)]
pub struct Curve {
    pub running: Binary64,
    pub peak: Binary64,
    pub deepest: Binary64,
}

pub open spec fn curve(xs: Seq<Binary64>) -> Curve
    decreases xs.len(),
{
    if xs.len() == 0 {
        Curve {
            running: Binary64::whole(0),
            peak: Binary64::whole(0),
            deepest: Binary64::whole(0),
        }
    } else {
        let before = curve(xs.drop_last());
        let running = before.running.plus_spec(xs.last());
        let peak = if before.peak.less(running) {
            running
        } else {
            before.peak
        };
        let fall = peak.minus_spec(running);
        Curve {
            running,
            peak,
            deepest: if before.deepest.less(fall) {
                fall
            } else {
                before.deepest
            },
        }
    }
}

/// The running total of results, with its peak and its deepest fall.
pub fn trace(xs: &Vec<Binary64>) -> (r: Curve)
    ensures
        r == curve(xs@),
{
    let mut running = Binary64::from_whole(0);
    let mut peak = Binary64::from_whole(0);
    let mut deepest = Binary64::from_whole(0);
    let n: usize = xs.len();
    let mut i: usize = 0;
    while i < n
        invariant
            n == xs@.len(),
            i <= n,
            curve(xs@.take(i as int)) == (Curve { running, peak, deepest }),
        decreases n - i,
    {
        assert(xs@.take(i + 1).drop_last() =~= xs@.take(i as int));
        running = running.plus(xs[i]);
        if peak.is_less(running) {
            peak = running;
        }
        let fall = peak.minus(running);
        if deepest.is_less(fall) {
            deepest = fall;
        }
        i = i + 1;
    }
    assert(xs@.take(n as int) =~= xs@);
    Curve { running, peak, deepest }
}

/// The deepest fall and the peak are never below zero.
pub proof fn drawdown_is_never_negative(xs: Seq<Binary64>)
    ensures
        Binary64::whole(0).at_most(curve(xs).deepest),
        Binary64::whole(0).at_most(curve(xs).peak),
    decreases xs.len(),
{
    crate::arithmetic::small_wholes_are_exact(0);
    if xs.len() > 0 {
        drawdown_is_never_negative(xs.drop_last());
    }
}

/// No fall from the peak so far, at any place, is deeper than the drawdown.
pub proof fn no_fall_is_deeper_than_the_drawdown(xs: Seq<Binary64>, k: int)
    requires
        0 < k <= xs.len(),
        !curve(xs.take(k)).peak.minus_spec(curve(xs.take(k)).running).nan(),
    ensures
        curve(xs.take(k)).peak.minus_spec(curve(xs.take(k)).running).at_most(curve(xs).deepest),
    decreases xs.len(),
{
    let rest = xs.drop_last();
    drawdown_is_never_negative(rest);
    drawdown_is_never_negative(xs);
    if k < xs.len() {
        assert(rest.take(k) =~= xs.take(k));
        no_fall_is_deeper_than_the_drawdown(rest, k);
    } else {
        assert(xs.take(k) =~= xs);
    }
}

pub open spec fn exit_times(trades: Seq<Trade>) -> Seq<i64> {
    trades.map_values(|t: Trade| t.exit_time_sec)
}

/// The trades in the order in which they ended; those that ended together keep their order.
pub open spec fn by_exit(trades: Seq<Trade>) -> Seq<Trade> {
    descending(time_keys(exit_times(trades))).map_values(|i: usize| trades[i as int])
}

/// The trades in the order in which they ended.
pub fn in_exit_order(trades: &Vec<Trade>) -> (r: Vec<Trade>)
    ensures
        r@ == by_exit(trades@),
{
    let n: usize = trades.len();
    let mut times: Vec<i64> = Vec::new();
    let mut i: usize = 0;
    while i < n
        invariant
            n == trades@.len(),
            i <= n,
            times@ == exit_times(trades@.take(i as int)),
        decreases n - i,
    {
        times.push(trades[i].exit_time_sec);
        i = i + 1;
        assert(times@ =~= exit_times(trades@.take(i as int)));
    }
    assert(trades@.take(n as int) =~= trades@);
    let order = by_rising_time(&times);
    let mut out: Vec<Trade> = Vec::new();
    let mut k: usize = 0;
    while k < n
        invariant
            n == trades@.len(),
            n == order@.len(),
            k <= n,
            forall|j: int| 0 <= j < n ==> (#[trigger] order@[j]) < n,
            out@ == order@.take(k as int).map_values(|j: usize| trades@[j as int]),
        decreases n - k,
    {
        out.push(trades[order[k]]);
        k = k + 1;
        assert(out@ =~= order@.take(k as int).map_values(|j: usize| trades@[j as int]));
    }
    assert(order@.take(n as int) =~= order@);
    out
}

/// The deepest fall of the running total of a figure, over the trades as they ended.
pub open spec fn drawdown(trades: Seq<Trade>, f: Figure) -> Binary64 {
    curve(figures(by_exit(trades), f)).deepest
}

/// The deepest fall of the running total of a figure, over the trades as they ended.
pub fn max_drawdown(trades: &Vec<Trade>, f: Figure) -> (r: Binary64)
    ensures
        r == drawdown(trades@, f),
{
    let sorted = in_exit_order(trades);
    trace(&list_figures(&sorted, f)).deepest
}

// Results by day.

/// The day of a time, counted from the epoch.
pub open spec fn day_of(sec: int) -> int {
    truncated(sec, DAY_SEC as int)
}

/// The sum of the results of the trades that ended on a day.
pub open spec fn day_total(trades: Seq<Trade>, day: int) -> Binary64
    decreases trades.len(),
{
    if trades.len() == 0 {
        Binary64::whole(0)
    } else {
        let before = day_total(trades.drop_last(), day);
        if day_of(trades.last().exit_time_sec as int) == day {
            before.plus_spec(trades.last().gross_funding_pnl)
        } else {
            before
        }
    }
}

/// The days with `d` among them, in rising order.
pub open spec fn with_day(days: Seq<int>, d: int) -> Seq<int>
    decreases days.len(),
{
    if days.len() == 0 || days.last() < d {
        days.push(d)
    } else if days.last() == d {
        days
    } else {
        with_day(days.drop_last(), d).push(days.last())
    }
}

/// The days from the first to the last one.
pub open spec fn period_days(first: int, last: int) -> Seq<int> {
    Seq::new(
        (if first <= last {
            last - first + 1
        } else {
            0
        }) as nat,
        |i: int| first + i,
    )
}

/// The days of a period and those on which a trade ended, in rising order.
pub open spec fn all_days(trades: Seq<Trade>, first: int, last: int) -> Seq<int>
    decreases trades.len(),
{
    if trades.len() == 0 {
        period_days(first, last)
    } else {
        with_day(
            all_days(trades.drop_last(), first, last),
            day_of(trades.last().exit_time_sec as int),
        )
    }
}

/// The results of those days.
pub open spec fn daily(trades: Seq<Trade>, first: int, last: int) -> Seq<Binary64> {
    all_days(trades, first, last).map_values(|d: int| day_total(trades, d))
}

pub open spec fn rising(days: Seq<int>) -> bool {
    forall|i: int, j: int| 0 <= i < j < days.len() ==> #[trigger] days[i] < #[trigger] days[j]
}

proof fn lemma_with_day(days: Seq<int>, d: int)
    requires
        rising(days),
    ensures
        rising(with_day(days, d)),
        forall|x: int| #[trigger]
            with_day(days, d).contains(x) <==> (days.contains(x) || x == d),
        days.len() <= with_day(days, d).len() <= days.len() + 1,
        with_day(days, d).len() > 0,
    decreases days.len(),
{
    let out = with_day(days, d);
    if days.len() == 0 || days.last() < d {
        assert forall|x: int| #[trigger] out.contains(x) <==> (days.contains(x) || x == d) by {
            if days.contains(x) {
                let k = choose|k: int| 0 <= k < days.len() && days[k] == x;
                assert(out[k] == x);
            }
            if x == d {
                assert(out[days.len() as int] == d);
            }
        }
    } else if days.last() == d {
        assert(days[days.len() - 1] == d);
    } else {
        let rest = days.drop_last();
        let inner = with_day(rest, d);
        lemma_with_day(rest, d);
        assert forall|x: int| #[trigger] out.contains(x) <==> (days.contains(x) || x == d) by {
            if out.contains(x) {
                let k = choose|k: int| 0 <= k < out.len() && out[k] == x;
                if k < inner.len() {
                    assert(inner[k] == x);
                    assert(inner.contains(x));
                    if rest.contains(x) {
                        let m = choose|m: int| 0 <= m < rest.len() && rest[m] == x;
                        assert(days[m] == x);
                    }
                } else {
                    assert(days[days.len() - 1] == x);
                }
            }
            if days.contains(x) {
                let k = choose|k: int| 0 <= k < days.len() && days[k] == x;
                if k < rest.len() {
                    assert(rest[k] == x);
                    assert(inner.contains(x));
                    let m = choose|m: int| 0 <= m < inner.len() && inner[m] == x;
                    assert(out[m] == x);
                } else {
                    assert(out[inner.len() as int] == x);
                }
            }
            if x == d {
                assert(inner.contains(d));
                let m = choose|m: int| 0 <= m < inner.len() && inner[m] == d;
                assert(out[m] == d);
            }
        }
        assert forall|i: int, j: int| 0 <= i < j < out.len() implies #[trigger] out[i]
            < #[trigger] out[j] by {
            if j == inner.len() {
                assert(inner.contains(inner[i]));
                if rest.contains(inner[i]) {
                    let m = choose|m: int| 0 <= m < rest.len() && rest[m] == inner[i];
                    assert(days[m] < days[days.len() - 1]);
                }
            }
        }
    }
}

/// The days of a report are in rising order, none twice, and are those of the period and those on
/// which a trade ended, and no others.
pub proof fn every_day_is_counted_once(trades: Seq<Trade>, first: int, last: int)
    ensures
        rising(all_days(trades, first, last)),
        forall|d: int| #[trigger]
            all_days(trades, first, last).contains(d) <==> {
                ||| first <= d <= last
                ||| exists|i: int|
                    0 <= i < trades.len() && day_of((#[trigger] trades[i]).exit_time_sec as int) == d
            },
    decreases trades.len(),
{
    let all = all_days(trades, first, last);
    if trades.len() == 0 {
        assert forall|d: int| #[trigger] all.contains(d) <==> first <= d <= last by {
            if first <= d <= last {
                assert(all[d - first] == d);
            }
        }
    } else {
        let rest = trades.drop_last();
        every_day_is_counted_once(rest, first, last);
        let before = all_days(rest, first, last);
        let own = day_of(trades.last().exit_time_sec as int);
        lemma_with_day(before, own);
        assert forall|d: int| #[trigger] all.contains(d) <==> {
            ||| first <= d <= last
            ||| exists|i: int|
                0 <= i < trades.len() && day_of((#[trigger] trades[i]).exit_time_sec as int) == d
        } by {
            assert(all.contains(d) <==> (before.contains(d) || d == own));
            if before.contains(d) && !(first <= d <= last) {
                let i = choose|i: int|
                    0 <= i < rest.len() && day_of((#[trigger] rest[i]).exit_time_sec as int) == d;
                assert(trades[i] == rest[i]);
            }
            if d == own {
                assert(trades[trades.len() - 1] == trades.last());
            }
            if exists|i: int|
                0 <= i < trades.len() && day_of((#[trigger] trades[i]).exit_time_sec as int) == d {
                let i = choose|i: int|
                    0 <= i < trades.len() && day_of((#[trigger] trades[i]).exit_time_sec as int)
                        == d;
                if i < rest.len() {
                    assert(rest[i] == trades[i]);
                }
            }
        }
    }
}

/// The day of a time.
pub fn day(sec: i64) -> (r: i64)
    ensures
        r == day_of(sec as int),
{
    sec / DAY_SEC
}

pub open spec fn whole_days(days: Seq<i64>) -> Seq<int> {
    days.map_values(|d: i64| d as int)
}

fn insert_day(days: &mut Vec<i64>, d: i64)
    requires
        rising(whole_days(old(days)@)),
    ensures
        whole_days(final(days)@) == with_day(whole_days(old(days)@), d as int),
        rising(whole_days(final(days)@)),
{
    let ghost start = days@;
    proof {
        lemma_with_day(whole_days(start), d as int);
    }
    let mut out: Vec<i64> = Vec::new();
    let n: usize = days.len();
    let mut i: usize = 0;
    let mut done: bool = false;
    while i < n
        invariant
            n == days@.len(),
            days@ == start,
            i <= n,
            rising(whole_days(start)),
            done ==> i > 0 && d <= start[i - 1],
            !done ==> out@ == start.take(i as int) && (i > 0 ==> start[i - 1] < d),
            done ==> whole_days(out@) == with_day(whole_days(start.take(i as int)), d as int),
        decreases n - i,
    {
        let x: i64 = days[i];
        let ghost so_far = whole_days(start.take(i as int));
        let ghost next = whole_days(start.take(i + 1));
        proof {
            assert(next.drop_last() =~= so_far);
            assert(next.last() == x);
            assert(whole_days(start)[i as int] == x);
            if i > 0 {
                assert(whole_days(start)[i - 1] == start[i - 1]);
                assert(whole_days(start)[i - 1] < whole_days(start)[i as int]);
            }
        }
        if done {
            out.push(x);
            assert(whole_days(out@) =~= with_day(so_far, d as int).push(x as int));
        } else if x < d {
            out.push(x);
            assert(out@ =~= start.take(i + 1));
        } else {
            done = true;
            if d < x {
                out.push(d);
                out.push(x);
                assert(with_day(so_far, d as int) == so_far.push(d as int));
                assert(whole_days(out@) =~= so_far.push(d as int).push(x as int));
            } else {
                out.push(x);
                assert(whole_days(out@) =~= next);
            }
        }
        i = i + 1;
    }
    assert(start.take(n as int) =~= start);
    if !done {
        out.push(d);
        assert(whole_days(out@) =~= whole_days(start).push(d as int));
    }
    *days = out;
}

fn list_days(trades: &Vec<Trade>, first: i64, last: i64) -> (r: Vec<i64>)
    requires
        last < i64::MAX,
    ensures
        whole_days(r@) == all_days(trades@, first as int, last as int),
{
    let mut days: Vec<i64> = Vec::new();
    let mut d: i64 = first;
    while d <= last
        invariant
            last < i64::MAX,
            first <= d,
            d <= last || d == first || d == last + 1,
            whole_days(days@) =~= period_days(first as int, d - 1),
        decreases last + 1 - d,
    {
        let ghost before = whole_days(days@);
        days.push(d);
        d = d + 1;
        assert(whole_days(days@) =~= before.push(d - 1));
        assert(before.len() == d - 1 - first);
        assert(whole_days(days@) =~= period_days(first as int, d - 1));
    }
    assert(trades@.take(0) =~= Seq::<Trade>::empty());
    assert(whole_days(days@) =~= period_days(first as int, last as int));
    let n: usize = trades.len();
    let mut i: usize = 0;
    while i < n
        invariant
            n == trades@.len(),
            i <= n,
            whole_days(days@) == all_days(trades@.take(i as int), first as int, last as int),
            rising(whole_days(days@)),
        decreases n - i,
    {
        assert(trades@.take(i + 1).drop_last() =~= trades@.take(i as int));
        insert_day(&mut days, day(trades[i].exit_time_sec));
        i = i + 1;
    }
    assert(trades@.take(n as int) =~= trades@);
    days
}

fn total_of_day(trades: &Vec<Trade>, d: i64) -> (r: Binary64)
    ensures
        r == day_total(trades@, d as int),
{
    let mut total = Binary64::from_whole(0);
    let n: usize = trades.len();
    let mut i: usize = 0;
    while i < n
        invariant
            n == trades@.len(),
            i <= n,
            total == day_total(trades@.take(i as int), d as int),
        decreases n - i,
    {
        assert(trades@.take(i + 1).drop_last() =~= trades@.take(i as int));
        if day(trades[i].exit_time_sec) == d {
            total = total.plus(trades[i].gross_funding_pnl);
        }
        i = i + 1;
    }
    assert(trades@.take(n as int) =~= trades@);
    total
}

/// The results by day: of each day from `first` to `last`, and of each other day on which a trade
/// ended.
pub fn daily_results(trades: &Vec<Trade>, first: i64, last: i64) -> (r: Vec<Binary64>)
    requires
        last < i64::MAX,
    ensures
        r@ == daily(trades@, first as int, last as int),
{
    let days = list_days(trades, first, last);
    let mut out: Vec<Binary64> = Vec::new();
    let n: usize = days.len();
    let mut i: usize = 0;
    while i < n
        invariant
            n == days@.len(),
            i <= n,
            out@ == whole_days(days@.take(i as int)).map_values(|d: int| day_total(trades@, d)),
        decreases n - i,
    {
        out.push(total_of_day(trades, days[i]));
        i = i + 1;
        assert(out@ =~= whole_days(days@.take(i as int)).map_values(
            |d: int| day_total(trades@, d),
        ));
    }
    assert(days@.take(n as int) =~= days@);
    out
}

/// The daily mean, the daily deviation and their ratio.
#[derive(Clone, Copy, Debug)]
pub struct DailyFigures {
    pub mean: Binary64,
    pub std: Binary64,
    /// Zero where the deviation is next to nothing.
    pub sharpe: Binary64,
}

pub open spec fn squared_distances(xs: Seq<Binary64>, m: Binary64) -> Seq<Binary64> {
    xs.map_values(|x: Binary64| x.minus_spec(m).times_spec(x.minus_spec(m)))
}

pub open spec fn daily_figures(xs: Seq<Binary64>) -> DailyFigures {
    let m = mean_of(xs);
    let std = mean_of(squared_distances(xs, m)).root_spec();
    DailyFigures {
        mean: m,
        std,
        sharpe: if Binary64::ratio(1, 1_000_000_000).less(std) {
            m.over_spec(std)
        } else {
            Binary64::whole(0)
        },
    }
}

/// The daily mean, the deviation of the population of days, and their ratio.
pub fn figures_by_day(xs: &Vec<Binary64>) -> (r: DailyFigures)
    ensures
        r == daily_figures(xs@),
{
    let m = mean(xs);
    let mut sq: Vec<Binary64> = Vec::new();
    let n: usize = xs.len();
    let mut i: usize = 0;
    while i < n
        invariant
            n == xs@.len(),
            i <= n,
            sq@ == squared_distances(xs@.take(i as int), m),
        decreases n - i,
    {
        let d = xs[i].minus(m);
        sq.push(d.times(d));
        i = i + 1;
        assert(sq@ =~= squared_distances(xs@.take(i as int), m));
    }
    assert(xs@.take(n as int) =~= xs@);
    let std = mean(&sq).root();
    let sharpe = if Binary64::from_ratio(1, 1_000_000_000).is_less(std) {
        m.over(std)
    } else {
        Binary64::from_whole(0)
    };
    DailyFigures { mean: m, std, sharpe }
}

} // verus!
