//! The replay of a history, hour by hour.
//!
//! In every hour the open positions receive their funding, then those that are due or whose
//! signal is gone are left, then the best of the coins that may be entered fill the places that
//! are free.

use crate::backtest::{
    admit_spec, admits, apr_at, apr_at_spec, cost_in_dollars, dollars, entry_cost_bps,
    entry_cost_spec, exit_cost_bps, in_time_order, is_rate_only, rate_between, rate_only,
    rate_within, size_fraction, state_at, state_at_spec, still_admit, still_admit_spec, taker_cost,
    tier_size_pct,
};
use crate::backtest::{
    AssetSnap, BacktestArgs, CoinSeries, ExitReason, Position, Side, Trade, HOUR_MS, LOOKBACK_MS,
};
use crate::binary64::Binary64;
use crate::order::{descending, descending_order, sorted_indices};
use crate::tier::{rank_spec, tier_rank, Tier};
use vstd::prelude::*;

verus! {

/// Division that drops the fraction.
pub open spec fn truncated(a: int, b: int) -> int {
    if a >= 0 {
        a / b
    } else {
        -((-a) / b)
    }
}

/// The first hour that is replayed: a day after the start, for the windows to fill.
#[verifier::opaque]
pub open spec fn first_hour(start_ms: int) -> int {
    truncated(start_ms + LOOKBACK_MS, HOUR_MS as int) * HOUR_MS
}

/// The last hour that is replayed.
#[verifier::opaque]
pub open spec fn last_hour(end_ms: int) -> int {
    truncated(end_ms, HOUR_MS as int) * HOUR_MS
}

/// How many hours are replayed.
pub open spec fn hour_count(start_ms: int, end_ms: int) -> nat {
    if first_hour(start_ms) <= last_hour(end_ms) {
        ((last_hour(end_ms) - first_hour(start_ms)) / (HOUR_MS as int) + 1) as nat
    } else {
        0
    }
}

/// The time of an hour, in milliseconds.
pub open spec fn hour_time(start_ms: int, h: int) -> int {
    first_hour(start_ms) + h * HOUR_MS
}

/// The time of an hour, in seconds.
pub open spec fn seconds(t: int) -> int {
    t / 1000
}

/// What is known of a coin at `t`.
#[verifier::opaque]
pub open spec fn snap_of(series: Seq<CoinSeries>, c: int, t: int) -> Option<AssetSnap> {
    state_at_spec(series[c].points@, t, LOOKBACK_MS as int, series[c].volume_log)
}

/// A position with the funding of the hour that ends at `t`: the last rate paid in it, received
/// by a short position and paid by a long one.
pub open spec fn accrued(series: Seq<CoinSeries>, p: Position, t: int) -> Position {
    match rate_between(series[p.asset as int].points@, t - HOUR_MS, t) {
        Some(rate) => Position {
            accumulated_pnl: p.accumulated_pnl.plus_spec(
                match p.side {
                    Side::Long => rate.negated_spec().times_spec(p.size_usd),
                    Side::Short => rate.times_spec(p.size_usd),
                },
            ),
            ..p
        },
        None => p,
    }
}

pub open spec fn all_accrued(series: Seq<CoinSeries>, ps: Seq<Position>, t: int) -> Seq<Position> {
    ps.map_values(|p: Position| accrued(series, p, t))
}

/// The full hours since a position was opened.
pub open spec fn age_hours(p: Position, t: int) -> int {
    (seconds(t) - p.entry_time_sec) / 3600
}

/// Why a position is left at `t`, if it is.
pub open spec fn reason_to_leave(
    args: BacktestArgs,
    series: Seq<CoinSeries>,
    p: Position,
    t: int,
) -> Option<ExitReason> {
    if age_hours(p, t) >= args.hold_hours {
        Some(ExitReason::MaxHold)
    } else if !still_admit_spec(args, snap_of(series, p.asset as int, t)) {
        Some(ExitReason::SignalLost)
    } else {
        None
    }
}

/// The trade that a position becomes when it is left at `t`.
pub open spec fn trade_of(
    args: BacktestArgs,
    p: Position,
    t: int,
    apr_at_exit: Option<Binary64>,
    reason: ExitReason,
) -> Trade {
    let exit_cost = cost_in_dollars(p.size_usd, taker_cost(args));
    Trade {
        asset: p.asset,
        entry_tier: p.entry_tier,
        side: p.side,
        size_usd: p.size_usd,
        entry_time_sec: p.entry_time_sec,
        exit_time_sec: seconds(t) as i64,
        gross_funding_pnl: p.accumulated_pnl,
        entry_cost: p.entry_cost,
        exit_cost,
        net_pnl: p.accumulated_pnl.minus_spec(p.entry_cost).minus_spec(exit_cost),
        funding_apr_at_entry: p.funding_apr_at_entry,
        funding_apr_at_exit: match apr_at_exit {
            Some(apr) => apr,
            None => p.funding_apr_at_entry,
        },
        hold_hours: (if age_hours(p, t) >= 1 {
            age_hours(p, t)
        } else {
            1
        }) as u32,
        exit_reason: reason,
    }
}

/// The rate in force when a position is left: that of the reading, else the last one known.
pub open spec fn exit_apr(series: Seq<CoinSeries>, c: int, t: int) -> Option<Binary64> {
    match snap_of(series, c, t) {
        Some(s) => Some(s.apr_now),
        None => apr_at_spec(series[c].points@, t),
    }
}

/// The trades of the positions that are left at `t`.
pub open spec fn left(
    args: BacktestArgs,
    series: Seq<CoinSeries>,
    ps: Seq<Position>,
    t: int,
) -> Seq<Trade>
    decreases ps.len(),
{
    if ps.len() == 0 {
        Seq::empty()
    } else {
        let before = left(args, series, ps.drop_last(), t);
        let p = ps.last();
        match reason_to_leave(args, series, p, t) {
            Some(reason) => before.push(
                trade_of(args, p, t, exit_apr(series, p.asset as int, t), reason),
            ),
            None => before,
        }
    }
}

/// The positions that are kept at `t`.
pub open spec fn kept(
    args: BacktestArgs,
    series: Seq<CoinSeries>,
    ps: Seq<Position>,
    t: int,
) -> Seq<Position>
    decreases ps.len(),
{
    if ps.len() == 0 {
        Seq::empty()
    } else {
        let before = kept(args, series, ps.drop_last(), t);
        if reason_to_leave(args, series, ps.last(), t) is None {
            before.push(ps.last())
        } else {
            before
        }
    }
}

/// A coin is in one of the positions.
pub open spec fn held(ps: Seq<Position>, c: usize) -> bool {
    exists|i: int| 0 <= i < ps.len() && (#[trigger] ps[i]).asset == c
}

/// A coin may be entered at `t`.
pub open spec fn enterable(
    args: BacktestArgs,
    series: Seq<CoinSeries>,
    open: Seq<Position>,
    t: int,
    c: usize,
) -> bool {
    match snap_of(series, c as int, t) {
        Some(snap) => admit_spec(args, snap) && !held(open, c),
        None => false,
    }
}

/// The coins below `n` that may be entered at `t`.
pub open spec fn candidates(
    args: BacktestArgs,
    series: Seq<CoinSeries>,
    open: Seq<Position>,
    t: int,
    n: nat,
) -> Seq<usize>
    decreases n,
{
    if n == 0 {
        Seq::empty()
    } else {
        let before = candidates(args, series, open, t, (n - 1) as nat);
        if enterable(args, series, open, t, (n - 1) as usize) {
            before.push((n - 1) as usize)
        } else {
            before
        }
    }
}

/// The larger, the sooner a coin is entered: by the absolute rate, and, where entries go by
/// tiers, by the rank of the tier before it.
pub open spec fn entry_key(args: BacktestArgs, snap: AssetSnap) -> u128 {
    let by_rate = snap.apr_now.abs_spec().key();
    if rate_only(args) {
        by_rate as u128
    } else {
        let rank = match snap.natural_tier {
            Some(t) => rank_spec(t),
            None => 0,
        };
        (rank * 0x1_0000_0000_0000_0000 + by_rate) as u128
    }
}

pub open spec fn entry_keys(
    args: BacktestArgs,
    series: Seq<CoinSeries>,
    coins: Seq<usize>,
    t: int,
) -> Seq<u128> {
    coins.map_values(|c: usize| entry_key(args, snap_of(series, c as int, t)->0))
}

/// The coins in the order in which they are entered.
pub open spec fn ranked(
    args: BacktestArgs,
    series: Seq<CoinSeries>,
    coins: Seq<usize>,
    t: int,
) -> Seq<usize> {
    descending(entry_keys(args, series, coins, t)).map_values(|i: usize| coins[i as int])
}

/// How many places are free.
pub open spec fn room(args: BacktestArgs, open: Seq<Position>) -> nat {
    if open.len() < args.max_positions {
        (args.max_positions - open.len()) as nat
    } else {
        0
    }
}

/// A new position: short where the rate is positive and long otherwise, so that it receives the
/// funding; a tenth of the capital where entries go by the rate, else what the tier is given.
pub open spec fn opened(args: BacktestArgs, c: usize, snap: AssetSnap, t: int) -> Position {
    let tier = match snap.natural_tier {
        Some(t) => t,
        None => Tier::Weak,
    };
    let size = if rate_only(args) {
        args.capital.times_spec(Binary64::ratio(10, 100))
    } else {
        args.capital.times_spec(size_fraction(tier))
    };
    Position {
        asset: c,
        side: if snap.apr_now.above(0) {
            Side::Short
        } else {
            Side::Long
        },
        size_usd: size,
        entry_time_sec: seconds(t) as i64,
        entry_tier: tier,
        accumulated_pnl: Binary64::whole(0),
        entry_cost: cost_in_dollars(size, entry_cost_spec(args)),
        funding_apr_at_entry: snap.apr_now,
    }
}

/// The positions that are opened at `t` beside those that are open.
pub open spec fn entries(
    args: BacktestArgs,
    series: Seq<CoinSeries>,
    open: Seq<Position>,
    t: int,
) -> Seq<Position> {
    let coins = ranked(
        args,
        series,
        candidates(args, series, open, t, series.len()),
        t,
    );
    let n = if coins.len() <= room(args, open) {
        coins.len()
    } else {
        room(args, open)
    };
    coins.take(n as int).map_values(
        |c: usize| opened(args, c, snap_of(series, c as int, t)->0, t),
    )
}

/// What is kept of the open positions, and what is opened beside them.
pub open spec fn settled(
    args: BacktestArgs,
    series: Seq<CoinSeries>,
    ps: Seq<Position>,
    t: int,
) -> Seq<Position> {
    let stayed = kept(args, series, ps, t);
    stayed + entries(args, series, stayed, t)
}

/// The open positions after the hour `t`.
pub open spec fn after_hour(
    args: BacktestArgs,
    series: Seq<CoinSeries>,
    ps: Seq<Position>,
    t: int,
) -> Seq<Position> {
    settled(args, series, all_accrued(series, ps, t), t)
}

/// The open positions after the first `h` hours.
pub open spec fn positions_after(
    args: BacktestArgs,
    series: Seq<CoinSeries>,
    start_ms: int,
    h: nat,
) -> Seq<Position>
    decreases h,
{
    if h == 0 {
        Seq::empty()
    } else {
        after_hour(
            args,
            series,
            positions_after(args, series, start_ms, (h - 1) as nat),
            hour_time(start_ms, h - 1),
        )
    }
}

/// The trades of the first `h` hours.
pub open spec fn trades_after(
    args: BacktestArgs,
    series: Seq<CoinSeries>,
    start_ms: int,
    h: nat,
) -> Seq<Trade>
    decreases h,
{
    if h == 0 {
        Seq::empty()
    } else {
        let t = hour_time(start_ms, h - 1);
        trades_after(args, series, start_ms, (h - 1) as nat) + left(
            args,
            series,
            all_accrued(series, positions_after(args, series, start_ms, (h - 1) as nat), t),
            t,
        )
    }
}

/// What is still open at the end is left then.
pub open spec fn closing(
    args: BacktestArgs,
    series: Seq<CoinSeries>,
    ps: Seq<Position>,
    t: int,
) -> Seq<Trade> {
    ps.map_values(
        |p: Position|
            trade_of(
                args,
                p,
                t,
                apr_at_spec(series[p.asset as int].points@, t),
                ExitReason::EndOfPeriod,
            ),
    )
}

/// The trades of a backtest.
pub open spec fn simulated(
    args: BacktestArgs,
    series: Seq<CoinSeries>,
    start_ms: int,
    end_ms: int,
) -> Seq<Trade> {
    let n = hour_count(start_ms, end_ms);
    trades_after(args, series, start_ms, n) + closing(
        args,
        series,
        positions_after(args, series, start_ms, n),
        last_hour(end_ms),
    )
}

/// Every history is in the order of time.
pub open spec fn histories_in_order(series: Seq<CoinSeries>) -> bool {
    forall|c: int| 0 <= c < series.len() ==> in_time_order((#[trigger] series[c]).points@)
}

/// The times of a replay fit a machine integer.
pub open spec fn period_fits(start_ms: int, end_ms: int) -> bool {
    &&& i64::MIN <= start_ms <= i64::MAX - LOOKBACK_MS
    &&& i64::MIN <= end_ms <= i64::MAX - HOUR_MS
}

/// At the hour `t` every position is of a known coin and no older than its time.
#[verifier::opaque]
pub open spec fn positions_ok(args: BacktestArgs, ps: Seq<Position>, coins: nat, t: int) -> bool {
    forall|i: int|
        0 <= i < ps.len() ==> {
            &&& (#[trigger] ps[i]).asset < coins
            &&& within_time(args, ps[i], t)
        }
}

/// A position was opened a whole number of hours before `t`, and no more of them than it may be
/// held for, or one.
pub open spec fn within_time(args: BacktestArgs, p: Position, t: int) -> bool {
    let held_for = seconds(t) - p.entry_time_sec;
    &&& 0 <= held_for
    &&& held_for % 3600 == 0
    &&& held_for <= 3600 * args.hold_hours || held_for <= 3600
}

proof fn lemma_known_coins(args: BacktestArgs, ps: Seq<Position>, coins: nat, t: int)
    requires
        positions_ok(args, ps, coins, t),
    ensures
        forall|i: int| 0 <= i < ps.len() ==> (#[trigger] ps[i]).asset < coins,
{
    reveal(positions_ok);
}

/// Funding changes neither the coin of a position nor its time.
proof fn lemma_accrued_ok(args: BacktestArgs, series: Seq<CoinSeries>, ps: Seq<Position>, t: int)
    requires
        positions_ok(args, ps, series.len(), t),
    ensures
        positions_ok(args, all_accrued(series, ps, t), series.len(), t),
{
    reveal(positions_ok);
    let acc = all_accrued(series, ps, t);
    assert forall|i: int| 0 <= i < acc.len() implies {
        &&& (#[trigger] acc[i]).asset < series.len()
        &&& within_time(args, acc[i], t)
    } by {
        assert(acc[i] == accrued(series, ps[i], t));
    }
}

/// `row` holds what is known of each coin at `t`.
pub open spec fn row_ok(row: Seq<Option<AssetSnap>>, series: Seq<CoinSeries>, t: int) -> bool {
    &&& row.len() == series.len()
    &&& forall|c: int| 0 <= c < row.len() ==> #[trigger] row[c] == snap_of(series, c, t)
}

/// Gives the open positions the funding of an hour.
fn accrue_all(series: &Vec<CoinSeries>, ps: &Vec<Position>, t: i64) -> (r: Vec<Position>)
    requires
        forall|i: int| 0 <= i < ps@.len() ==> (#[trigger] ps@[i]).asset < series@.len(),
        t >= i64::MIN + HOUR_MS,
    ensures
        r@ == all_accrued(series@, ps@, t as int),
{
    let mut out: Vec<Position> = Vec::new();
    let n: usize = ps.len();
    let mut i: usize = 0;
    while i < n
        invariant
            n == ps@.len(),
            i <= n,
            t >= i64::MIN + HOUR_MS,
            forall|k: int| 0 <= k < ps@.len() ==> (#[trigger] ps@[k]).asset < series@.len(),
            out@ == all_accrued(series@, ps@.take(i as int), t as int),
        decreases n - i,
    {
        let p: Position = ps[i];
        let after: Position = match rate_within(&series[p.asset].points, t - HOUR_MS, t) {
            Some(rate) => {
                let delta = match p.side {
                    Side::Long => rate.negated().times(p.size_usd),
                    Side::Short => rate.times(p.size_usd),
                };
                Position { accumulated_pnl: p.accumulated_pnl.plus(delta), ..p }
            },
            None => p,
        };
        assert(after == accrued(series@, p, t as int));
        out.push(after);
        i = i + 1;
        assert(out@ =~= all_accrued(series@, ps@.take(i as int), t as int));
    }
    assert(ps@.take(n as int) =~= ps@);
    out
}

/// Turns a position into a trade.
fn close(
    args: &BacktestArgs,
    p: &Position,
    t: i64,
    apr_at_exit: Option<Binary64>,
    reason: ExitReason,
) -> (r: Trade)
    requires
        t as int % 1000 == 0,
        0 <= seconds(t as int) - p.entry_time_sec <= 3600 * u32::MAX,
    ensures
        r == trade_of(*args, *p, t as int, apr_at_exit, reason),
{
    let t_sec: i64 = t / 1000;
    let age: u32 = ((t_sec - p.entry_time_sec) / 3600) as u32;
    let exit_cost = dollars(p.size_usd, exit_cost_bps(args));
    Trade {
        asset: p.asset,
        entry_tier: p.entry_tier,
        side: p.side,
        size_usd: p.size_usd,
        entry_time_sec: p.entry_time_sec,
        exit_time_sec: t_sec,
        gross_funding_pnl: p.accumulated_pnl,
        entry_cost: p.entry_cost,
        exit_cost,
        net_pnl: p.accumulated_pnl.minus(p.entry_cost).minus(exit_cost),
        funding_apr_at_entry: p.funding_apr_at_entry,
        funding_apr_at_exit: match apr_at_exit {
            Some(apr) => apr,
            None => p.funding_apr_at_entry,
        },
        hold_hours: if age >= 1 {
            age
        } else {
            1
        },
        exit_reason: reason,
    }
}

/// Leaves the positions that are due or whose signal is gone, and gives those that are kept.
fn leave(
    args: &BacktestArgs,
    series: &Vec<CoinSeries>,
    row: &Vec<Option<AssetSnap>>,
    ps: &Vec<Position>,
    t: i64,
    trades: &mut Vec<Trade>,
) -> (stayed: Vec<Position>)
    requires
        histories_in_order(series@),
        row_ok(row@, series@, t as int),
        positions_ok(*args, ps@, series@.len(), t as int),
        t as int % 1000 == 0,
    ensures
        stayed@ == kept(*args, series@, ps@, t as int),
        final(trades)@ == old(trades)@ + left(*args, series@, ps@, t as int),
{
    let ghost before = trades@;
    let mut stayed: Vec<Position> = Vec::new();
    let n: usize = ps.len();
    let mut i: usize = 0;
    assert(ps@.take(0) =~= Seq::<Position>::empty());
    assert(before + Seq::<Trade>::empty() =~= before);
    while i < n
        invariant
            n == ps@.len(),
            i <= n,
            histories_in_order(series@),
            row_ok(row@, series@, t as int),
            positions_ok(*args, ps@, series@.len(), t as int),
            t as int % 1000 == 0,
            stayed@ == kept(*args, series@, ps@.take(i as int), t as int),
            trades@ == before + left(*args, series@, ps@.take(i as int), t as int),
        decreases n - i,
    {
        let p: Position = ps[i];
        proof {
            reveal(positions_ok);
        }
        assert(ps@[i as int].asset < series@.len());
        let snap: Option<AssetSnap> = row[p.asset];
        let age: u32 = ((t / 1000 - p.entry_time_sec) / 3600) as u32;
        assert(age == age_hours(p, t as int));
        let reason: Option<ExitReason> = if age >= args.hold_hours {
            Some(ExitReason::MaxHold)
        } else if !still_admit(args, snap) {
            Some(ExitReason::SignalLost)
        } else {
            None
        };
        assert(reason == reason_to_leave(*args, series@, p, t as int));
        proof {
            assert(ps@.take(i + 1).drop_last() =~= ps@.take(i as int));
            assert(ps@.take(i + 1).last() == p);
        }
        match reason {
            Some(why) => {
                assert(in_time_order(series@[p.asset as int].points@));
                let apr: Option<Binary64> = match snap {
                    Some(s) => Some(s.apr_now),
                    None => apr_at(&series[p.asset].points, t),
                };
                trades.push(close(args, &p, t, apr, why));
                assert(trades@ =~= before + left(*args, series@, ps@.take(i + 1), t as int));
            },
            None => {
                stayed.push(p);
            },
        }
        i = i + 1;
    }
    assert(ps@.take(n as int) =~= ps@);
    stayed
}

fn is_held(ps: &Vec<Position>, c: usize) -> (r: bool)
    ensures
        r == held(ps@, c),
{
    let n: usize = ps.len();
    let mut i: usize = 0;
    while i < n
        invariant
            n == ps@.len(),
            i <= n,
            forall|k: int| 0 <= k < i ==> (#[trigger] ps@[k]).asset != c,
        decreases n - i,
    {
        if ps[i].asset == c {
            assert(ps@[i as int].asset == c);
            return true;
        }
        i = i + 1;
    }
    false
}

fn key_of_entry(args: &BacktestArgs, snap: &AssetSnap) -> (r: u128)
    ensures
        r == entry_key(*args, *snap),
{
    let by_rate: u128 = snap.apr_now.abs().sort_key() as u128;
    if is_rate_only(args) {
        by_rate
    } else {
        let rank: u128 = match snap.natural_tier {
            Some(t) => tier_rank(t) as u128,
            None => 0,
        };
        rank * 0x1_0000_0000_0000_0000u128 + by_rate
    }
}

fn open_position(args: &BacktestArgs, c: usize, snap: &AssetSnap, t: i64) -> (r: Position)
    requires
        t as int % 1000 == 0,
    ensures
        r == opened(*args, c, *snap, t as int),
{
    let tier: Tier = match snap.natural_tier {
        Some(t) => t,
        None => Tier::Weak,
    };
    let size = if is_rate_only(args) {
        args.capital.times(Binary64::from_ratio(10, 100))
    } else {
        args.capital.times(tier_size_pct(tier))
    };
    Position {
        asset: c,
        side: if snap.apr_now.is_above(0) {
            Side::Short
        } else {
            Side::Long
        },
        size_usd: size,
        entry_time_sec: t / 1000,
        entry_tier: tier,
        accumulated_pnl: Binary64::from_whole(0),
        entry_cost: dollars(size, entry_cost_bps(args)),
        funding_apr_at_entry: snap.apr_now,
    }
}

/// The coins that may be entered, and the keys by which they are ranked.
fn find_candidates(
    args: &BacktestArgs,
    series: &Vec<CoinSeries>,
    row: &Vec<Option<AssetSnap>>,
    open: &Vec<Position>,
    t: i64,
) -> (r: (Vec<usize>, Vec<u128>))
    requires
        row_ok(row@, series@, t as int),
    ensures
        r.0@ == candidates(*args, series@, open@, t as int, series@.len()),
        r.1@ == entry_keys(*args, series@, r.0@, t as int),
        forall|i: int|
            0 <= i < r.0@.len() ==> (#[trigger] r.0@[i]) < series@.len() && row@[r.0@[i] as int]
                is Some,
{
    let n: usize = row.len();
    let mut coins: Vec<usize> = Vec::new();
    let mut keys: Vec<u128> = Vec::new();
    let mut c: usize = 0;
    while c < n
        invariant
            n == row@.len(),
            c <= n,
            row_ok(row@, series@, t as int),
            coins@ == candidates(*args, series@, open@, t as int, c as nat),
            keys@ == entry_keys(*args, series@, coins@, t as int),
            forall|i: int|
                0 <= i < coins@.len() ==> (#[trigger] coins@[i]) < series@.len()
                    && row@[coins@[i] as int] is Some,
        decreases n - c,
    {
        let snap: Option<AssetSnap> = row[c];
        assert(row@[c as int] == snap_of(series@, c as int, t as int));
        match snap {
            Some(s) => {
                if admits(args, &s) && !is_held(open, c) {
                    coins.push(c);
                    keys.push(key_of_entry(args, &s));
                    assert(keys@ =~= entry_keys(*args, series@, coins@, t as int));
                }
            },
            None => {},
        }
        c = c + 1;
    }
    (coins, keys)
}

/// Fills the free places with the best of the coins that may be entered.
fn enter(
    args: &BacktestArgs,
    series: &Vec<CoinSeries>,
    row: &Vec<Option<AssetSnap>>,
    open: Vec<Position>,
    t: i64,
) -> (r: Vec<Position>)
    requires
        row_ok(row@, series@, t as int),
        t as int % 1000 == 0,
    ensures
        r@ == open@ + entries(*args, series@, open@, t as int),
{
    let (coins, keys) = find_candidates(args, series, row, &open, t);
    let order: Vec<usize> = descending_order(&keys);
    let n: usize = order.len();
    let ghost before = open@;
    let ghost all = ranked(*args, series@, coins@, t as int);
    let ghost each = |c: usize|
        opened(*args, c, snap_of(series@, c as int, t as int)->0, t as int);
    let mut out: Vec<Position> = open;
    let mut i: usize = 0;
    assert(all.take(0).map_values(each) =~= Seq::<Position>::empty());
    assert(before + Seq::<Position>::empty() =~= before);
    while i < n && out.len() < args.max_positions
        invariant
            n == order@.len(),
            i <= n,
            t as int % 1000 == 0,
            row_ok(row@, series@, t as int),
            order@ == descending(keys@),
            sorted_indices(order@, keys@, keys@.len()),
            keys@.len() == coins@.len(),
            keys@ == entry_keys(*args, series@, coins@, t as int),
            all == ranked(*args, series@, coins@, t as int),
            all.len() == n,
            each == (|c: usize|
                opened(*args, c, snap_of(series@, c as int, t as int)->0, t as int)),
            forall|k: int|
                0 <= k < coins@.len() ==> (#[trigger] coins@[k]) < series@.len()
                    && row@[coins@[k] as int] is Some,
            out@ == before + all.take(i as int).map_values(each),
            i <= room(*args, before),
        decreases n - i,
    {
        let c: usize = coins[order[i]];
        assert(all[i as int] == c);
        assert(row@[c as int] == snap_of(series@, c as int, t as int));
        match row[c] {
            Some(s) => {
                out.push(open_position(args, c, &s, t));
                assert(out@ =~= before + all.take(i + 1).map_values(each));
            },
            None => {
                assert(false);
            },
        }
        i = i + 1;
    }
    proof {
        let want = if all.len() <= room(*args, before) {
            all.len()
        } else {
            room(*args, before)
        };
        assert(out@.len() == before.len() + i);
        assert(i == want);
    }
    out
}

/// The hours of a replay, in milliseconds.
pub fn replay_hours(start_ms: i64, end_ms: i64) -> (r: Vec<i64>)
    requires
        period_fits(start_ms as int, end_ms as int),
    ensures
        r@.len() == hour_count(start_ms as int, end_ms as int),
        forall|h: int|
            0 <= h < r@.len() ==> (#[trigger] r@[h]) == hour_time(start_ms as int, h),
{
    let first: i64 = ((start_ms + LOOKBACK_MS) / HOUR_MS) * HOUR_MS;
    let last: i64 = (end_ms / HOUR_MS) * HOUR_MS;
    let mut out: Vec<i64> = Vec::new();
    let mut t: i64 = first;
    proof {
        reveal(first_hour);
        reveal(last_hour);
        lemma_hours(start_ms as int, end_ms as int);
    }
    while t <= last
        invariant
            first == first_hour(start_ms as int),
            last == last_hour(end_ms as int),
            last <= i64::MAX - HOUR_MS,
            t == hour_time(start_ms as int, out@.len() as int),
            first <= last ==> (last - first) % (HOUR_MS as int) == 0,
            out@.len() <= hour_count(start_ms as int, end_ms as int),
            t <= last <==> out@.len() < hour_count(start_ms as int, end_ms as int),
            forall|h: int|
                0 <= h < out@.len() ==> (#[trigger] out@[h]) == hour_time(start_ms as int, h),
        decreases last - t + HOUR_MS,
    {
        out.push(t);
        t = t + HOUR_MS;
    }
    out
}

/// The first and the last hour are whole hours, and the last one is the last of those counted.
pub proof fn lemma_hours(start_ms: int, end_ms: int)
    requires
        period_fits(start_ms, end_ms),
    ensures
        first_hour(start_ms) % (HOUR_MS as int) == 0,
        last_hour(end_ms) % (HOUR_MS as int) == 0,
        (last_hour(end_ms) - first_hour(start_ms)) % (HOUR_MS as int) == 0,
        start_ms + LOOKBACK_MS - HOUR_MS < first_hour(start_ms),
        i64::MIN + LOOKBACK_MS <= first_hour(start_ms) <= i64::MAX,
        last_hour(end_ms) <= i64::MAX - HOUR_MS,
        i64::MIN <= last_hour(end_ms),
        hour_count(start_ms, end_ms) > 0 ==> hour_time(
            start_ms,
            hour_count(start_ms, end_ms) - 1,
        ) == last_hour(end_ms),
{
    reveal(first_hour);
    reveal(last_hour);
}

/// `table` holds what is known of each coin in each hour of the replay.
pub open spec fn table_ok(
    table: Seq<Vec<Option<AssetSnap>>>,
    series: Seq<CoinSeries>,
    start_ms: int,
    end_ms: int,
) -> bool {
    &&& table.len() == hour_count(start_ms, end_ms)
    &&& forall|h: int|
        0 <= h < table.len() ==> row_ok((#[trigger] table[h])@, series, hour_time(start_ms, h))
}

/// What is known of each coin in each hour of the replay. It does not depend on the parameters,
/// so that many backtests can share it.
pub fn snapshots(series: &Vec<CoinSeries>, start_ms: i64, end_ms: i64) -> (table: Vec<
    Vec<Option<AssetSnap>>,
>)
    requires
        histories_in_order(series@),
        period_fits(start_ms as int, end_ms as int),
    ensures
        table_ok(table@, series@, start_ms as int, end_ms as int),
{
    let hours: Vec<i64> = replay_hours(start_ms, end_ms);
    let n: usize = hours.len();
    let coins: usize = series.len();
    let mut table: Vec<Vec<Option<AssetSnap>>> = Vec::new();
    let mut h: usize = 0;
    proof {
        lemma_hours(start_ms as int, end_ms as int);
        reveal(positions_ok);
    }
    while h < n
        invariant
            n == hours@.len(),
            h <= n,
            coins == series@.len(),
            histories_in_order(series@),
            n == hour_count(start_ms as int, end_ms as int),
            i64::MIN + LOOKBACK_MS <= first_hour(start_ms as int),
            forall|k: int|
                0 <= k < n ==> (#[trigger] hours@[k]) == hour_time(start_ms as int, k),
            table@.len() == h,
            forall|k: int|
                0 <= k < h ==> row_ok(
                    (#[trigger] table@[k])@,
                    series@,
                    hour_time(start_ms as int, k),
                ),
        decreases n - h,
    {
        let t: i64 = hours[h];
        let mut row: Vec<Option<AssetSnap>> = Vec::new();
        let mut c: usize = 0;
        while c < coins
            invariant
                coins == series@.len(),
                c <= coins,
                histories_in_order(series@),
                t >= i64::MIN + LOOKBACK_MS,
                row@.len() == c,
                forall|k: int| 0 <= k < c ==> #[trigger] row@[k] == snap_of(series@, k, t as int),
            decreases coins - c,
        {
            assert(in_time_order(series@[c as int].points@));
            proof {
                reveal(snap_of);
            }
            row.push(state_at(&series[c].points, t, LOOKBACK_MS, series[c].volume_log));
            c = c + 1;
        }
        table.push(row);
        h = h + 1;
    }
    table
}

/// Before the first hour no position is open; after an hour all of them are within their time
/// for the next one.
pub proof fn lemma_positions_ok(
    args: BacktestArgs,
    series: Seq<CoinSeries>,
    ps: Seq<Position>,
    t: int,
    next: int,
)
    requires
        series.len() <= usize::MAX,
        t % (HOUR_MS as int) == 0,
        next == t + HOUR_MS,
        i64::MIN <= t <= i64::MAX,
        positions_ok(args, ps, series.len(), t),
    ensures
        positions_ok(args, all_accrued(series, ps, t), series.len(), t),
        positions_ok(args, after_hour(args, series, ps, t), series.len(), next),
        positions_ok(args, after_hour(args, series, ps, t), series.len(), t),
{
    reveal(positions_ok);
    let acc = all_accrued(series, ps, t);
    assert forall|i: int| 0 <= i < acc.len() implies {
        &&& (#[trigger] acc[i]).asset < series.len()
        &&& within_time(args, acc[i], t)
    } by {
        assert(acc[i] == accrued(series, ps[i], t));
    }
    let stayed = kept(args, series, acc, t);
    lemma_kept_members(args, series, acc, t);
    let fresh = entries(args, series, stayed, t);
    lemma_entries(args, series, stayed, t);
    let all = stayed + fresh;
    assert(seconds(next) == seconds(t) + 3600);
    assert forall|i: int| 0 <= i < all.len() implies {
        &&& (#[trigger] all[i]).asset < series.len()
        &&& within_time(args, all[i], t)
        &&& within_time(args, all[i], next)
    } by {
        if i < stayed.len() {
            assert(all[i] == stayed[i]);
            let k = choose|k: int| 0 <= k < acc.len() && acc[k] == stayed[i];
            assert(acc[k] == stayed[i]);
            assert(reason_to_leave(args, series, stayed[i], t) is None);
        } else {
            assert(all[i] == fresh[i - stayed.len()]);
        }
    }
}

/// What is kept was open and has no reason to be left.
pub proof fn lemma_kept_members(
    args: BacktestArgs,
    series: Seq<CoinSeries>,
    ps: Seq<Position>,
    t: int,
)
    ensures
        kept(args, series, ps, t).len() <= ps.len(),
        forall|i: int|
            0 <= i < kept(args, series, ps, t).len() ==> {
                &&& ps.contains(#[trigger] kept(args, series, ps, t)[i])
                &&& reason_to_leave(args, series, kept(args, series, ps, t)[i], t) is None
            },
    decreases ps.len(),
{
    if ps.len() > 0 {
        let rest = ps.drop_last();
        lemma_kept_members(args, series, rest, t);
        let before = kept(args, series, rest, t);
        let now = kept(args, series, ps, t);
        assert forall|i: int| 0 <= i < now.len() implies {
            &&& ps.contains(#[trigger] now[i])
            &&& reason_to_leave(args, series, now[i], t) is None
        } by {
            if i < before.len() {
                assert(now[i] == before[i]);
                let k = choose|k: int| 0 <= k < rest.len() && rest[k] == before[i];
                assert(ps[k] == now[i]);
            } else {
                assert(now[i] == ps[ps.len() - 1]);
            }
        }
    }
}

/// The coins that may be entered, each once.
/// The coins that may be entered are listed once, in rising order, and all of them are.
pub proof fn lemma_candidates(
    args: BacktestArgs,
    series: Seq<CoinSeries>,
    open: Seq<Position>,
    t: int,
    n: nat,
)
    requires
        n <= usize::MAX,
    ensures
        candidates(args, series, open, t, n).len() <= n,
        forall|i: int|
            0 <= i < candidates(args, series, open, t, n).len() ==> {
                &&& (#[trigger] candidates(args, series, open, t, n)[i]) < n
                &&& enterable(args, series, open, t, candidates(args, series, open, t, n)[i])
            },
        forall|i: int, j: int|
            0 <= i < j < candidates(args, series, open, t, n).len() ==> (
            #[trigger] candidates(args, series, open, t, n)[i]) < (
            #[trigger] candidates(args, series, open, t, n)[j]),
        forall|c: usize|
            c < n && enterable(args, series, open, t, c) ==> #[trigger] candidates(
                args,
                series,
                open,
                t,
                n,
            ).contains(c),
    decreases n,
{
    if n > 0 {
        let k = (n - 1) as nat;
        lemma_candidates(args, series, open, t, k);
        let before = candidates(args, series, open, t, k);
        let now = candidates(args, series, open, t, n);
        assert forall|c: usize| c < n && enterable(args, series, open, t, c) implies
            #[trigger] now.contains(c) by {
            if c < k {
                assert(before.contains(c));
                let i = choose|i: int| 0 <= i < before.len() && before[i] == c;
                assert(now[i] == c);
            } else {
                assert(now[before.len() as int] == c);
            }
        }
    }
}

/// The new positions are of different coins that may be entered, are opened now, and fill no
/// more than the free places.
pub proof fn lemma_entries(
    args: BacktestArgs,
    series: Seq<CoinSeries>,
    open: Seq<Position>,
    t: int,
)
    requires
        series.len() <= usize::MAX,
        i64::MIN <= t <= i64::MAX,
    ensures
        entries(args, series, open, t).len() <= room(args, open),
        forall|i: int|
            0 <= i < entries(args, series, open, t).len() ==> {
                let p = #[trigger] entries(args, series, open, t)[i];
                &&& p.asset < series.len()
                &&& enterable(args, series, open, t, p.asset)
                &&& p == opened(args, p.asset, snap_of(series, p.asset as int, t)->0, t)
                &&& p.entry_time_sec == seconds(t)
            },
        forall|i: int, j: int|
            0 <= i < j < entries(args, series, open, t).len() ==> (
            #[trigger] entries(args, series, open, t)[i]).asset != (
            #[trigger] entries(args, series, open, t)[j]).asset,
{
    let coins = candidates(args, series, open, t, series.len());
    lemma_candidates(args, series, open, t, series.len());
    let keys = entry_keys(args, series, coins, t);
    crate::order::descending_is_a_stable_sort(keys);
    let order = descending(keys);
    let all = ranked(args, series, coins, t);
    let es = entries(args, series, open, t);
    assert forall|i: int| 0 <= i < es.len() implies {
        let p = #[trigger] es[i];
        &&& p.asset < series.len()
        &&& enterable(args, series, open, t, p.asset)
        &&& p == opened(args, p.asset, snap_of(series, p.asset as int, t)->0, t)
        &&& p.entry_time_sec == seconds(t)
    } by {
        assert(es[i].asset == all[i]);
        assert(all[i] == coins[order[i] as int]);
    }
    assert forall|i: int, j: int| 0 <= i < j < es.len() implies (#[trigger] es[i]).asset != (
    #[trigger] es[j]).asset by {
        assert(es[i].asset == coins[order[i] as int]);
        assert(es[j].asset == coins[order[j] as int]);
        assert(order[i] != order[j]);
        if order[i] < order[j] {
            assert(coins[order[i] as int] < coins[order[j] as int]);
        } else {
            assert(coins[order[j] as int] < coins[order[i] as int]);
        }
    }
}

/// Leaves what is still open at the end.
fn close_all(
    args: &BacktestArgs,
    series: &Vec<CoinSeries>,
    positions: &Vec<Position>,
    last: i64,
    trades: &mut Vec<Trade>,
)
    requires
        histories_in_order(series@),
        last as int % 1000 == 0,
        positions_ok(*args, positions@, series@.len(), last as int),
    ensures
        final(trades)@ == old(trades)@ + closing(*args, series@, positions@, last as int),
{
    let m: usize = positions.len();
    let ghost before = trades@;
    let ghost all = closing(*args, series@, positions@, last as int);
    let mut i: usize = 0;
    assert(before + all.take(0) =~= before);
    while i < m
        invariant
            m == positions@.len(),
            i <= m,
            histories_in_order(series@),
            last as int % 1000 == 0,
            positions_ok(*args, positions@, series@.len(), last as int),
            all == closing(*args, series@, positions@, last as int),
            trades@ == before + all.take(i as int),
        decreases m - i,
    {
        let p: Position = positions[i];
        proof {
            reveal(positions_ok);
        }
        assert(positions@[i as int].asset < series@.len());
        assert(in_time_order(series@[p.asset as int].points@));
        let apr: Option<Binary64> = apr_at(&series[p.asset].points, last);
        trades.push(close(args, &p, last, apr, ExitReason::EndOfPeriod));
        i = i + 1;
        assert(trades@ =~= before + all.take(i as int));
    }
    assert(all.take(m as int) =~= all);
}

/// The last hour of a replay.
fn final_hour(end_ms: i64) -> (r: i64)
    ensures
        r == last_hour(end_ms as int),
        r as int % 1000 == 0,
{
    proof {
        reveal(last_hour);
    }
    (end_ms / HOUR_MS) * HOUR_MS
}

/// Leaves what is due and fills the free places.
fn settle(
    args: &BacktestArgs,
    series: &Vec<CoinSeries>,
    row: &Vec<Option<AssetSnap>>,
    ps: &Vec<Position>,
    t: i64,
    trades: &mut Vec<Trade>,
) -> (r: Vec<Position>)
    requires
        histories_in_order(series@),
        row_ok(row@, series@, t as int),
        positions_ok(*args, ps@, series@.len(), t as int),
        t as int % 1000 == 0,
    ensures
        r@ == settled(*args, series@, ps@, t as int),
        final(trades)@ == old(trades)@ + left(*args, series@, ps@, t as int),
{
    let stayed: Vec<Position> = leave(args, series, row, ps, t, trades);
    enter(args, series, row, stayed, t)
}

/// Plays one hour, and gives what is open after it.
fn play_hour(
    args: &BacktestArgs,
    series: &Vec<CoinSeries>,
    row: &Vec<Option<AssetSnap>>,
    positions: &Vec<Position>,
    t: i64,
    trades: &mut Vec<Trade>,
) -> (r: Vec<Position>)
    requires
        histories_in_order(series@),
        row_ok(row@, series@, t as int),
        positions_ok(*args, positions@, series@.len(), t as int),
        t as int % 1000 == 0,
        t >= i64::MIN + HOUR_MS,
    ensures
        r@ == after_hour(*args, series@, positions@, t as int),
        final(trades)@ == old(trades)@ + left(
            *args,
            series@,
            all_accrued(series@, positions@, t as int),
            t as int,
        ),
{
    proof {
        lemma_known_coins(*args, positions@, series@.len(), t as int);
        lemma_accrued_ok(*args, series@, positions@, t as int);
    }
    let with_funding: Vec<Position> = accrue_all(series, positions, t);
    settle(args, series, row, &with_funding, t, trades)
}

/// An hour of a replay is a whole one, within a machine integer and a day after its least.
proof fn lemma_hour(start_ms: int, end_ms: int, h: int)
    requires
        period_fits(start_ms, end_ms),
        0 <= h < hour_count(start_ms, end_ms),
    ensures
        hour_time(start_ms, h) % (HOUR_MS as int) == 0,
        hour_time(start_ms, h) % 1000 == 0,
        i64::MIN + LOOKBACK_MS <= hour_time(start_ms, h) <= i64::MAX,
        hour_time(start_ms, h + 1) == hour_time(start_ms, h) + HOUR_MS,
{
    lemma_hours(start_ms, end_ms);
    let first = first_hour(start_ms);
    let hour = HOUR_MS as int;
    let t = hour_time(start_ms, h);
    let last = hour_time(start_ms, hour_count(start_ms, end_ms) - 1);
    assert(t <= last);
    vstd::arithmetic::div_mod::lemma_mod_multiples_vanish(h, first, hour);
    assert(hour * h + first == t);
    vstd::arithmetic::div_mod::lemma_mod_mod(t, 1000, 3600);
}

/// Plays every hour, and gives what is open after the last one and what was left until then.
fn play(
    table: &Vec<Vec<Option<AssetSnap>>>,
    series: &Vec<CoinSeries>,
    args: &BacktestArgs,
    start_ms: i64,
    end_ms: i64,
) -> (r: (Vec<Position>, Vec<Trade>))
    requires
        histories_in_order(series@),
        period_fits(start_ms as int, end_ms as int),
        table_ok(table@, series@, start_ms as int, end_ms as int),
    ensures
        r.0@ == positions_after(
            *args,
            series@,
            start_ms as int,
            hour_count(start_ms as int, end_ms as int),
        ),
        r.1@ == trades_after(
            *args,
            series@,
            start_ms as int,
            hour_count(start_ms as int, end_ms as int),
        ),
        positions_ok(*args, r.0@, series@.len(), last_hour(end_ms as int)),
{
    let hours: Vec<i64> = replay_hours(start_ms, end_ms);
    let n: usize = hours.len();
    let mut positions: Vec<Position> = Vec::new();
    let mut trades: Vec<Trade> = Vec::new();
    let coins: usize = series.len();
    let mut h: usize = 0;
    proof {
        lemma_hours(start_ms as int, end_ms as int);
        reveal(positions_ok);
    }
    while h < n
        invariant
            n == hours@.len(),
            h <= n,
            n == hour_count(start_ms as int, end_ms as int),
            histories_in_order(series@),
            coins == series@.len(),
            table_ok(table@, series@, start_ms as int, end_ms as int),
            period_fits(start_ms as int, end_ms as int),
            forall|k: int|
                0 <= k < n ==> (#[trigger] hours@[k]) == hour_time(start_ms as int, k),
            positions@ == positions_after(*args, series@, start_ms as int, h as nat),
            trades@ == trades_after(*args, series@, start_ms as int, h as nat),
            positions_ok(
                *args,
                positions@,
                series@.len(),
                hour_time(start_ms as int, h as int),
            ),
            h > 0 ==> positions_ok(
                *args,
                positions@,
                series@.len(),
                hour_time(start_ms as int, h - 1),
            ),
            h == 0 ==> positions@.len() == 0,
        decreases n - h,
    {
        let t: i64 = hours[h];
        assert(row_ok(table@[h as int]@, series@, hour_time(start_ms as int, h as int)));
        proof {
            lemma_hour(start_ms as int, end_ms as int, h as int);
            lemma_positions_ok(*args, series@, positions@, t as int, t + HOUR_MS);
        }
        positions = play_hour(args, series, &table[h], &positions, t, &mut trades);
        h = h + 1;
    }
    (positions, trades)
}

/// The backtest over a table of readings that was made before.
pub fn simulate_on(
    table: &Vec<Vec<Option<AssetSnap>>>,
    series: &Vec<CoinSeries>,
    args: &BacktestArgs,
    start_ms: i64,
    end_ms: i64,
) -> (trades: Vec<Trade>)
    requires
        histories_in_order(series@),
        period_fits(start_ms as int, end_ms as int),
        table_ok(table@, series@, start_ms as int, end_ms as int),
    ensures
        trades@ == simulated(*args, series@, start_ms as int, end_ms as int),
{
    let (positions, mut trades) = play(table, series, args, start_ms, end_ms);
    close_all(args, series, &positions, final_hour(end_ms), &mut trades);
    trades
}

/// The backtest.
pub fn simulate(series: &Vec<CoinSeries>, args: &BacktestArgs, start_ms: i64, end_ms: i64) -> (
    trades: Vec<Trade>)
    requires
        histories_in_order(series@),
        period_fits(start_ms as int, end_ms as int),
    ensures
        trades@ == simulated(*args, series@, start_ms as int, end_ms as int),
{
    let table: Vec<Vec<Option<AssetSnap>>> = snapshots(series, start_ms, end_ms);
    simulate_on(&table, series, args, start_ms, end_ms)
}

} // verus!
