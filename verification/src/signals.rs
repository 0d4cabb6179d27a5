//! Live readings of the funding rate, and the signals that they make.

use crate::binary64::Binary64;
use crate::decimal::texts;
use crate::grouping::{
    count_of, distinct, distinct_below, group_by_name, members_below, members_of, Group,
};
use crate::stats::{
    compute_score, score_spec, spread, spread_spec, trend, trend_newest_first, volume_ratio,
    volume_ratio_spec, TrendDir,
};
use crate::tier::{classify, classify_spec, Requirements, Tier};
use vstd::prelude::*;

verus! {

/// The least number of readings of an hour: sixty percent of twelve, rounded up.
pub const MIN_COUNT_1H: usize = 8;

/// How often a reading is taken where the readings do not tell, in seconds.
pub const DEFAULT_CADENCE: i64 = 300;

/// A stored reading of an asset.
pub struct Reading {
    pub asset: String,
    /// The funding rate in percent per year.
    pub apr: Binary64,
    /// The volume of a day in dollars.
    pub volume: Binary64,
}

/// What an hour of readings says of an asset.
#[derive(Clone, Copy, Debug)]
pub struct HourStats {
    /// The place of the asset among the distinct ones.
    pub group: usize,
    /// The place of its newest reading.
    pub newest: usize,
    pub apr_now: Binary64,
    pub avg: Binary64,
    pub std: Binary64,
    pub std_pct: Binary64,
    pub direction: TrendDir,
    pub volume_24h: Binary64,
}

/// The figures of a signal.
#[derive(Clone, Copy, Debug)]
pub struct SignalData {
    pub tier: Tier,
    pub score: Binary64,
    pub apr_now: Binary64,
    pub std_pct: Binary64,
    pub volume_24h: Binary64,
    /// How many hours of readings stand behind it.
    pub history_h: Binary64,
}

/// A signal of an asset.
pub struct Signal {
    pub asset: String,
    pub data: SignalData,
}

/// The assets of the readings, row by row.
pub open spec fn assets_of(rows: Seq<Reading>) -> Seq<Seq<char>> {
    rows.map_values(|r: Reading| r.asset@)
}

pub open spec fn rates_at(rows: Seq<Reading>, places: Seq<usize>) -> Seq<Binary64> {
    places.map_values(|i: usize| rows[i as int].apr)
}

/// The places of the readings of the `g`-th distinct asset, the newest first.
pub open spec fn places_of(rows: Seq<Reading>, g: int) -> Seq<usize> {
    members_of(assets_of(rows), distinct(assets_of(rows))[g])
}

/// What the readings at some places say of an asset; the first of them is the newest.
pub open spec fn stats_at(rows: Seq<Reading>, g: int, places: Seq<usize>) -> HourStats {
    let rates = rates_at(rows, places);
    let s = spread_spec(rates);
    HourStats {
        group: g as usize,
        newest: places[0],
        apr_now: rates[0],
        avg: s.avg,
        std: s.std,
        std_pct: s.std_pct,
        direction: trend_newest_first(rates),
        volume_24h: rows[places[0] as int].volume,
    }
}

/// The statistics of those of the first `n` distinct assets that have enough readings.
pub open spec fn stats_until(rows: Seq<Reading>, n: nat) -> Seq<HourStats>
    decreases n,
{
    if n == 0 {
        Seq::empty()
    } else {
        let before = stats_until(rows, (n - 1) as nat);
        let places = places_of(rows, n - 1);
        if places.len() >= MIN_COUNT_1H {
            before.push(stats_at(rows, n - 1, places))
        } else {
            before
        }
    }
}

/// The statistics of the assets that have enough readings, in the order of the readings.
pub open spec fn hour_stats(rows: Seq<Reading>) -> Seq<HourStats> {
    stats_until(rows, distinct(assets_of(rows)).len())
}

/// The names of the readings.
pub fn list_assets(rows: &Vec<Reading>) -> (r: Vec<String>)
    ensures
        texts(r@) == assets_of(rows@),
        r@.len() == rows@.len(),
{
    let mut out: Vec<String> = Vec::new();
    let n: usize = rows.len();
    let mut i: usize = 0;
    while i < n
        invariant
            n == rows@.len(),
            i <= n,
            out@.len() == i,
            forall|k: int| 0 <= k < i ==> (#[trigger] out@[k])@ == rows@[k].asset@,
        decreases n - i,
    {
        out.push(rows[i].asset.clone());
        i = i + 1;
    }
    assert(texts(out@) =~= assets_of(rows@));
    out
}

pub proof fn lemma_places_in_range(names: Seq<Seq<char>>, name: Seq<char>, n: nat)
    requires
        n <= names.len() <= usize::MAX,
    ensures
        forall|k: int|
            0 <= k < members_below(names, name, n).len() ==> (#[trigger] members_below(
                names,
                name,
                n,
            )[k]) < n,
    decreases n,
{
    if n > 0 {
        lemma_places_in_range(names, name, (n - 1) as nat);
        let before = members_below(names, name, (n - 1) as nat);
        let now = members_below(names, name, n);
        assert forall|k: int| 0 <= k < now.len() implies (#[trigger] now[k]) < n by {
            if k < before.len() {
                assert(now[k] == before[k]);
            }
        }
    }
}

fn stats_of_group(rows: &Vec<Reading>, g: usize, places: &Vec<usize>) -> (r: HourStats)
    requires
        places@.len() > 0,
        forall|k: int| 0 <= k < places@.len() ==> (#[trigger] places@[k]) < rows@.len(),
    ensures
        r == stats_at(rows@, g as int, places@),
{
    let mut rates: Vec<Binary64> = Vec::new();
    let n: usize = places.len();
    let mut i: usize = 0;
    while i < n
        invariant
            n == places@.len(),
            i <= n,
            forall|k: int| 0 <= k < places@.len() ==> (#[trigger] places@[k]) < rows@.len(),
            rates@ =~= rates_at(rows@, places@.take(i as int)),
        decreases n - i,
    {
        rates.push(rows[places[i]].apr);
        i = i + 1;
    }
    assert(places@.take(n as int) =~= places@);
    let s = spread(&rates);
    let direction = if n >= 3 {
        trend(rates[2], rates[1], rates[0])
    } else {
        TrendDir::Flat
    };
    HourStats {
        group: g,
        newest: places[0],
        apr_now: rates[0],
        avg: s.avg,
        std: s.std,
        std_pct: s.std_pct,
        direction,
        volume_24h: rows[places[0]].volume,
    }
}

/// The statistics of the assets that have enough readings. The readings of an asset come newest
/// first.
pub fn compute_stats(rows: &Vec<Reading>) -> (r: Vec<HourStats>)
    ensures
        r@ == hour_stats(rows@),
{
    let names = list_assets(rows);
    let groups: Vec<Group> = group_by_name(&names);
    assert(rows@.len() == rows.len());
    let mut out: Vec<HourStats> = Vec::new();
    let n: usize = groups.len();
    let mut g: usize = 0;
    while g < n
        invariant
            n == groups@.len(),
            n == distinct(assets_of(rows@)).len(),
            g <= n,
            texts(names@) == assets_of(rows@),
            names@.len() == rows@.len(),
            rows@.len() <= usize::MAX,
            forall|k: int|
                0 <= k < n ==> (#[trigger] groups@[k]).members@ == places_of(rows@, k),
            out@ == stats_until(rows@, g as nat),
        decreases n - g,
    {
        proof {
            assert(groups@[g as int].members@ == places_of(rows@, g as int));
            lemma_places_in_range(
                assets_of(rows@),
                distinct(assets_of(rows@))[g as int],
                rows@.len(),
            );
        }
        if groups[g].members.len() >= MIN_COUNT_1H {
            out.push(stats_of_group(rows, g, &groups[g].members));
        }
        g = g + 1;
    }
    out
}

/// The liquidity that the score counts, of each distinct asset: that of its newest reading.
pub open spec fn liquidities(rows: Seq<Reading>) -> Seq<Binary64> {
    Seq::new(
        distinct(assets_of(rows)).len(),
        |g: int| volume_ratio_spec(rows[places_of(rows, g)[0] as int].volume),
    )
}

/// The liquidity of each distinct asset, before the logarithm.
pub fn list_liquidities(rows: &Vec<Reading>) -> (r: Vec<Binary64>)
    ensures
        r@ == liquidities(rows@),
{
    let names = list_assets(rows);
    let groups: Vec<Group> = group_by_name(&names);
    assert(rows@.len() == rows.len());
    let mut out: Vec<Binary64> = Vec::new();
    let n: usize = groups.len();
    let mut g: usize = 0;
    while g < n
        invariant
            n == groups@.len(),
            n == distinct(assets_of(rows@)).len(),
            g <= n,
            names@.len() == rows@.len(),
            rows@.len() <= usize::MAX,
            forall|k: int|
                0 <= k < n ==> (#[trigger] groups@[k]).members@ == places_of(rows@, k),
            out@ =~= liquidities(rows@).take(g as int),
        decreases n - g,
    {
        proof {
            assert(groups@[g as int].members@ == places_of(rows@, g as int));
            lemma_places_in_range(
                assets_of(rows@),
                distinct(assets_of(rows@))[g as int],
                rows@.len(),
            );
            lemma_distinct_has_members(assets_of(rows@), rows@.len(), g as int);
        }
        let first: usize = groups[g].members[0];
        out.push(volume_ratio(rows[first].volume));
        g = g + 1;
    }
    out
}

/// Every distinct name has a row.
proof fn lemma_distinct_has_members(names: Seq<Seq<char>>, n: nat, g: int)
    requires
        n <= names.len() <= usize::MAX,
        0 <= g < distinct_below(names, n).len(),
    ensures
        members_below(names, distinct_below(names, n)[g], n).len() > 0,
    decreases n,
{
    if n > 0 {
        let before = distinct_below(names, (n - 1) as nat);
        if g < before.len() {
            lemma_distinct_has_members(names, (n - 1) as nat, g);
            assert(distinct_below(names, n)[g] == before[g]);
        } else {
            assert(distinct_below(names, n)[g] == names[n - 1]);
        }
    }
}

// Signals.

/// How many readings of six hours each tier asks for: sixty percent of those of six hours, of two
/// hours and of half an hour, rounded to the nearest.
pub open spec fn live_requirements() -> Requirements {
    Requirements { strong: 43, medium: 14, early: 4 }
}

/// The tier of a live reading.
pub fn classify_live(score: Binary64, std_pct: Binary64, count_6h: usize) -> (r: Option<Tier>)
    ensures
        r == classify_spec(score, std_pct, count_6h as nat, live_requirements()),
{
    classify(score, std_pct, count_6h, Requirements { strong: 43, medium: 14, early: 4 })
}

/// A rate of more than 500 percent with a volume of less than a million dollars a day.
pub open spec fn trap_spec(apr_now: Binary64, volume: Binary64) -> bool {
    apr_now.abs_spec().above(500) && volume.below(1_000_000)
}

/// Whether a reading looks like a manipulation: a huge rate without liquidity.
pub fn is_trap(apr_now: Binary64, volume: Binary64) -> (r: bool)
    ensures
        r == trap_spec(apr_now, volume),
{
    apr_now.abs().is_above(500) && volume.is_below(1_000_000)
}

/// The score of an asset's hour. `logs` holds the decimal logarithms of the liquidities.
pub open spec fn score_of(s: HourStats, logs: Seq<Binary64>) -> Binary64 {
    score_spec(s.apr_now, s.avg, s.std_pct, logs[s.group as int], s.direction)
}

/// The score of an asset's hour.
pub fn score(s: &HourStats, logs: &Vec<Binary64>) -> (r: Binary64)
    requires
        s.group < logs@.len(),
    ensures
        r == score_of(*s, logs@),
{
    compute_score(s.apr_now, s.avg, s.std_pct, logs[s.group], s.direction)
}

/// The time between the two newest readings, in seconds; none where there are not two.
pub open spec fn interval_spec(times: Seq<i64>) -> Option<int> {
    if times.len() == 2 {
        Some(
            if times[0] >= times[1] {
                times[0] - times[1]
            } else {
                times[1] - times[0]
            },
        )
    } else {
        None
    }
}

/// The times of the two newest readings are not further apart than a machine integer can tell.
pub open spec fn times_fit(times: Seq<i64>) -> bool {
    interval_spec(times) matches Some(d) ==> d <= i64::MAX
}

/// Whether the times of the two newest readings can be subtracted.
pub fn do_times_fit(times: &Vec<i64>) -> (r: bool)
    ensures
        r == times_fit(times@),
{
    if times.len() != 2 {
        return true;
    }
    let d: i128 = times[0] as i128 - times[1] as i128;
    -(i64::MAX as i128) <= d && d <= i64::MAX as i128
}

/// The time between the two newest readings, in seconds.
pub fn interval(times: &Vec<i64>) -> (r: Option<i64>)
    requires
        times_fit(times@),
    ensures
        match r {
            Some(d) => interval_spec(times@) == Some(d as int),
            None => interval_spec(times@) is None,
        },
{
    if times.len() == 2 {
        let a: i64 = times[0];
        let b: i64 = times[1];
        Some(
            if a >= b {
                a - b
            } else {
                b - a
            },
        )
    } else {
        None
    }
}

/// How often readings are taken, in seconds: one at least, and five minutes where it is not known.
pub open spec fn cadence_spec(times: Seq<i64>) -> int {
    match interval_spec(times) {
        Some(d) => if d >= 1 {
            d
        } else {
            1
        },
        None => DEFAULT_CADENCE as int,
    }
}

/// How often readings are taken, in seconds.
pub fn cadence(times: &Vec<i64>) -> (r: i64)
    requires
        times_fit(times@),
    ensures
        r == cadence_spec(times@),
        r >= 1,
{
    match interval(times) {
        Some(d) => if d >= 1 {
            d
        } else {
            1
        },
        None => DEFAULT_CADENCE,
    }
}

/// `count * cadence / 3600`.
pub open spec fn history_hours(count: nat, cadence: int) -> Binary64 {
    Binary64::whole(count as int).times_spec(Binary64::whole(cadence)).over_spec(
        Binary64::whole(3600),
    )
}

/// The signal of an asset's hour; none for a trap, and where no tier fits.
pub open spec fn signal_spec(s: HourStats, count_6h: nat, cadence: int, logs: Seq<Binary64>) -> Option<
    SignalData,
> {
    if trap_spec(s.apr_now, s.volume_24h) {
        None
    } else {
        match classify_spec(score_of(s, logs), s.std_pct, count_6h, live_requirements()) {
            Some(tier) => Some(
                SignalData {
                    tier,
                    score: score_of(s, logs),
                    apr_now: s.apr_now,
                    std_pct: s.std_pct,
                    volume_24h: s.volume_24h,
                    history_h: history_hours(count_6h, cadence),
                },
            ),
            None => None,
        }
    }
}

/// The signal of an asset's hour.
pub fn signal_of(s: &HourStats, count_6h: usize, cadence: i64, logs: &Vec<Binary64>) -> (r: Option<
    SignalData,
>)
    requires
        s.group < logs@.len(),
    ensures
        r == signal_spec(*s, count_6h as nat, cadence as int, logs@),
{
    if is_trap(s.apr_now, s.volume_24h) {
        return None;
    }
    let points = score(s, logs);
    match classify_live(points, s.std_pct, count_6h) {
        Some(tier) => Some(
            SignalData {
                tier,
                score: points,
                apr_now: s.apr_now,
                std_pct: s.std_pct,
                volume_24h: s.volume_24h,
                history_h: Binary64::from_count(count_6h).times(Binary64::from_whole(cadence)).over(
                    Binary64::from_whole(3600),
                ),
            },
        ),
        None => None,
    }
}

/// Signals, with the names of their assets.
pub open spec fn signal_views(signals: Seq<Signal>) -> Seq<(Seq<char>, SignalData)> {
    signals.map_values(|s: Signal| (s.asset@, s.data))
}

/// The signals of the first `n` statistics. `recent` holds the assets of the readings of six
/// hours, row by row.
pub open spec fn signals_until(
    rows: Seq<Reading>,
    recent: Seq<Seq<char>>,
    cadence: int,
    logs: Seq<Binary64>,
    n: nat,
) -> Seq<(Seq<char>, SignalData)>
    decreases n,
{
    if n == 0 {
        Seq::empty()
    } else {
        let before = signals_until(rows, recent, cadence, logs, (n - 1) as nat);
        let s = hour_stats(rows)[n - 1];
        let asset = rows[s.newest as int].asset@;
        match signal_spec(s, members_of(recent, asset).len(), cadence, logs) {
            Some(data) => before.push((asset, data)),
            None => before,
        }
    }
}

/// The signals of an hour of readings.
pub open spec fn live_signals(
    rows: Seq<Reading>,
    recent: Seq<Seq<char>>,
    cadence: int,
    logs: Seq<Binary64>,
) -> Seq<(Seq<char>, SignalData)> {
    signals_until(rows, recent, cadence, logs, hour_stats(rows).len())
}

/// The statistics speak of assets and readings that there are.
pub proof fn lemma_stats_in_range(rows: Seq<Reading>, n: nat)
    requires
        n <= distinct(assets_of(rows)).len(),
        rows.len() <= usize::MAX,
    ensures
        distinct(assets_of(rows)).len() <= rows.len(),
        stats_until(rows, n).len() <= n,
        forall|k: int|
            0 <= k < stats_until(rows, n).len() ==> {
                &&& (#[trigger] stats_until(rows, n)[k]).group < n
                &&& stats_until(rows, n)[k].newest < rows.len()
                &&& rows[stats_until(rows, n)[k].newest as int].asset@ == distinct(
                    assets_of(rows),
                )[stats_until(rows, n)[k].group as int]
            },
        forall|j: int, k: int|
            0 <= j < k < stats_until(rows, n).len() ==> (#[trigger] stats_until(rows, n)[j]).group
                < (#[trigger] stats_until(rows, n)[k]).group,
    decreases n,
{
    lemma_distinct_len(assets_of(rows), rows.len());
    if n > 0 {
        lemma_stats_in_range(rows, (n - 1) as nat);
        let names = assets_of(rows);
        let name = distinct(names)[n - 1];
        let places = places_of(rows, n - 1);
        lemma_places_in_range(names, name, rows.len());
        if places.len() >= MIN_COUNT_1H {
            assert(places.contains(places[0]));
            crate::grouping::members_are_the_rows_of_a_name(names, name, places[0]);
        }
    }
}

proof fn lemma_distinct_len(names: Seq<Seq<char>>, n: nat)
    ensures
        distinct_below(names, n).len() <= n,
    decreases n,
{
    if n > 0 {
        lemma_distinct_len(names, (n - 1) as nat);
    }
}

/// The signals of an hour of readings. `recent` holds the assets of the readings of six hours,
/// `logs` the decimal logarithms of the liquidities of the distinct assets.
pub fn compute_signals(
    rows: &Vec<Reading>,
    recent: &Vec<String>,
    cadence: i64,
    logs: &Vec<Binary64>,
) -> (r: Vec<Signal>)
    requires
        logs@.len() == liquidities(rows@).len(),
    ensures
        signal_views(r@) == live_signals(rows@, texts(recent@), cadence as int, logs@),
        signals_differ(signal_views(r@)),
{
    let stats = compute_stats(rows);
    assert(rows@.len() == rows.len());
    proof {
        lemma_stats_in_range(rows@, distinct(assets_of(rows@)).len());
        one_signal_for_each_asset(rows@, texts(recent@), cadence as int, logs@);
    }
    let mut out: Vec<Signal> = Vec::new();
    let n: usize = stats.len();
    let mut i: usize = 0;
    assert(signal_views(out@) =~= Seq::<(Seq<char>, SignalData)>::empty());
    while i < n
        invariant
            n == stats@.len(),
            i <= n,
            stats@ == hour_stats(rows@),
            forall|k: int|
                0 <= k < n ==> (#[trigger] stats@[k]).group < logs@.len() && stats@[k].newest
                    < rows@.len(),
            signal_views(out@) == signals_until(
                rows@,
                texts(recent@),
                cadence as int,
                logs@,
                i as nat,
            ),
        decreases n - i,
    {
        let s: HourStats = stats[i];
        assert(stats@[i as int].newest < rows@.len());
        let count: usize = count_of(recent, &rows[s.newest].asset);
        match signal_of(&s, count, cadence, logs) {
            Some(data) => {
                let ghost before = signal_views(out@);
                out.push(Signal { asset: rows[s.newest].asset.clone(), data });
                assert(signal_views(out@) =~= before.push((rows@[s.newest as int].asset@, data)));
            },
            None => {},
        }
        i = i + 1;
    }
    out
}

/// No two signals are of one asset.
pub open spec fn signals_differ(signals: Seq<(Seq<char>, SignalData)>) -> bool {
    forall|i: int, j: int|
        0 <= i < j < signals.len() ==> (#[trigger] signals[i]).0 != (#[trigger] signals[j]).0
}

proof fn lemma_signals_differ(
    rows: Seq<Reading>,
    recent: Seq<Seq<char>>,
    cadence: int,
    logs: Seq<Binary64>,
    n: nat,
)
    requires
        rows.len() <= usize::MAX,
        n <= hour_stats(rows).len(),
    ensures
        signals_differ(signals_until(rows, recent, cadence, logs, n)),
        forall|i: int|
            0 <= i < signals_until(rows, recent, cadence, logs, n).len() ==> exists|k: int|
                0 <= k < n && rows[hour_stats(rows)[k].newest as int].asset@ == (
                #[trigger] signals_until(rows, recent, cadence, logs, n)[i]).0,
    decreases n,
{
    if n > 0 {
        let m = (n - 1) as nat;
        lemma_signals_differ(rows, recent, cadence, logs, m);
        let total = distinct(assets_of(rows)).len();
        lemma_stats_in_range(rows, total);
        crate::grouping::distinct_names_cover_the_rows(assets_of(rows));
        let before = signals_until(rows, recent, cadence, logs, m);
        let now = signals_until(rows, recent, cadence, logs, n);
        let s = hour_stats(rows)[m as int];
        let own = rows[s.newest as int].asset@;
        assert forall|i: int| 0 <= i < now.len() implies exists|k: int|
            0 <= k < n && rows[hour_stats(rows)[k].newest as int].asset@ == (#[trigger] now[i]).0 by {
            if i < before.len() {
                assert(now[i] == before[i]);
                let k = choose|k: int|
                    0 <= k < m && rows[hour_stats(rows)[k].newest as int].asset@ == before[i].0;
                assert(rows[hour_stats(rows)[k].newest as int].asset@ == now[i].0);
            } else {
                assert(rows[hour_stats(rows)[m as int].newest as int].asset@ == now[i].0);
            }
        }
        assert forall|i: int, j: int| 0 <= i < j < now.len() implies (#[trigger] now[i]).0 != (
        #[trigger] now[j]).0 by {
            if j == before.len() {
                assert(now[i] == before[i]);
                let k = choose|k: int|
                    0 <= k < m && rows[hour_stats(rows)[k].newest as int].asset@ == before[i].0;
                let a = hour_stats(rows)[k];
                assert(a.group < s.group);
                assert(distinct(assets_of(rows))[a.group as int] != distinct(
                    assets_of(rows),
                )[s.group as int]);
            } else {
                assert(now[i] == before[i] && now[j] == before[j]);
            }
        }
    }
}

/// An hour of readings makes at most one signal of each asset.
pub proof fn one_signal_for_each_asset(
    rows: Seq<Reading>,
    recent: Seq<Seq<char>>,
    cadence: int,
    logs: Seq<Binary64>,
)
    requires
        rows.len() <= usize::MAX,
    ensures
        signals_differ(live_signals(rows, recent, cadence, logs)),
{
    lemma_signals_differ(rows, recent, cadence, logs, hour_stats(rows).len());
}

/// No signal is a trap: its rate is at most 500 percent or its volume a million at least, and its
/// deviation is at most 70 percent of its mean.
pub proof fn traps_make_no_signal(
    s: HourStats,
    count_6h: nat,
    cadence: int,
    logs: Seq<Binary64>,
)
    requires
        signal_spec(s, count_6h, cadence, logs) is Some,
    ensures
        !trap_spec(s.apr_now, s.volume_24h),
        !s.std_pct.above(70),
{
}

} // verus!
