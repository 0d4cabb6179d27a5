//! What holds of every backtest, whatever the history and the parameters.

use crate::arithmetic::{
    signs_multiply, signs_tell_the_side_of_zero, wholes_carry_their_sign,
};
use crate::backtest::{
    admit_spec, apr_of, cost_in_dollars, entry_cost_spec, rate_only, size_fraction,
    still_admit_spec, taker_cost,
};
use crate::backtest::{
    AssetSnap, BacktestArgs, CliExitStrategy, CoinSeries, ExitReason, Position, Side, Trade,
    HOUR_MS,
};
use crate::binary64::Binary64;
use crate::order::descending;
use crate::simulation::{
    accrued, after_hour, age_hours, all_accrued, candidates, closing, entries, enterable,
    entry_key, entry_keys, exit_apr, held, hour_count, hour_time, kept, last_hour, left, opened,
    period_fits, positions_after, positions_ok, ranked, reason_to_leave, seconds, simulated,
    snap_of, trade_of, trades_after, within_time,
};
use crate::simulation::{
    lemma_candidates, lemma_entries, lemma_hours, lemma_kept_members, lemma_positions_ok,
};
use crate::tier::{rank_spec, Tier};
use vstd::prelude::*;

verus! {

/// The hours of a replay are whole hours that fit a machine integer.
pub proof fn lemma_hour_bounds(start_ms: int, end_ms: int, h: int)
    requires
        period_fits(start_ms, end_ms),
        0 <= h < hour_count(start_ms, end_ms),
    ensures
        hour_time(start_ms, h) % (HOUR_MS as int) == 0,
        hour_time(start_ms, h) % 1000 == 0,
        i64::MIN <= hour_time(start_ms, h) <= last_hour(end_ms) <= i64::MAX,
        hour_time(start_ms, h + 1) == hour_time(start_ms, h) + HOUR_MS,
        seconds(hour_time(start_ms, h + 1)) == seconds(hour_time(start_ms, h)) + 3600,
        h == hour_count(start_ms, end_ms) - 1 ==> hour_time(start_ms, h) == last_hour(end_ms),
{
    lemma_hours(start_ms, end_ms);
    vstd::arithmetic::div_mod::lemma_mod_mod(hour_time(start_ms, h), 1000, 3600);
}

/// At no hour are more positions open than allowed.
pub proof fn open_positions_never_exceed_the_limit(
    args: BacktestArgs,
    series: Seq<CoinSeries>,
    start_ms: int,
    end_ms: int,
    h: nat,
)
    requires
        series.len() <= usize::MAX,
        period_fits(start_ms, end_ms),
        h <= hour_count(start_ms, end_ms),
    ensures
        positions_after(args, series, start_ms, h).len() <= args.max_positions,
    decreases h,
{
    if h > 0 {
        let k = (h - 1) as nat;
        let t = hour_time(start_ms, k as int);
        open_positions_never_exceed_the_limit(args, series, start_ms, end_ms, k);
        lemma_hour_bounds(start_ms, end_ms, k as int);
        let acc = all_accrued(series, positions_after(args, series, start_ms, k), t);
        lemma_kept_members(args, series, acc, t);
        lemma_entries(args, series, kept(args, series, acc, t), t);
    }
}

/// No two positions are of one coin.
pub open spec fn coins_differ(ps: Seq<Position>) -> bool {
    forall|i: int, j: int|
        0 <= i < j < ps.len() ==> (#[trigger] ps[i]).asset != (#[trigger] ps[j]).asset
}

proof fn lemma_kept_coins_differ(
    args: BacktestArgs,
    series: Seq<CoinSeries>,
    ps: Seq<Position>,
    t: int,
)
    requires
        coins_differ(ps),
    ensures
        coins_differ(kept(args, series, ps, t)),
    decreases ps.len(),
{
    if ps.len() > 0 {
        let rest = ps.drop_last();
        assert forall|i: int, j: int| 0 <= i < j < rest.len() implies (
        #[trigger] rest[i]).asset != (#[trigger] rest[j]).asset by {
            assert(rest[i] == ps[i] && rest[j] == ps[j]);
        }
        lemma_kept_coins_differ(args, series, rest, t);
        lemma_kept_members(args, series, rest, t);
        let before = kept(args, series, rest, t);
        let now = kept(args, series, ps, t);
        assert forall|i: int, j: int| 0 <= i < j < now.len() implies (#[trigger] now[i]).asset != (
        #[trigger] now[j]).asset by {
            assert(now[i] == before[i]);
            if j < before.len() {
                assert(now[j] == before[j]);
            } else {
                let k = choose|k: int| 0 <= k < rest.len() && rest[k] == before[i];
                assert(ps[k] == before[i] && ps[ps.len() - 1] == now[j]);
            }
        }
    }
}

/// At every hour at most one position is open in each coin.
pub proof fn each_coin_is_held_at_most_once(
    args: BacktestArgs,
    series: Seq<CoinSeries>,
    start_ms: int,
    end_ms: int,
    h: nat,
)
    requires
        series.len() <= usize::MAX,
        period_fits(start_ms, end_ms),
        h <= hour_count(start_ms, end_ms),
    ensures
        coins_differ(positions_after(args, series, start_ms, h)),
    decreases h,
{
    if h > 0 {
        let k = (h - 1) as nat;
        let t = hour_time(start_ms, k as int);
        each_coin_is_held_at_most_once(args, series, start_ms, end_ms, k);
        lemma_hour_bounds(start_ms, end_ms, k as int);
        let ps = positions_after(args, series, start_ms, k);
        let acc = all_accrued(series, ps, t);
        assert forall|i: int, j: int| 0 <= i < j < acc.len() implies (#[trigger] acc[i]).asset != (
        #[trigger] acc[j]).asset by {
            assert(acc[i] == accrued(series, ps[i], t) && acc[j] == accrued(series, ps[j], t));
        }
        lemma_kept_coins_differ(args, series, acc, t);
        let stayed = kept(args, series, acc, t);
        lemma_entries(args, series, stayed, t);
        let fresh = entries(args, series, stayed, t);
        let all = stayed + fresh;
        assert forall|i: int, j: int| 0 <= i < j < all.len() implies (#[trigger] all[i]).asset != (
        #[trigger] all[j]).asset by {
            if j >= stayed.len() {
                assert(all[j] == fresh[j - stayed.len()]);
                if i >= stayed.len() {
                    assert(all[i] == fresh[i - stayed.len()]);
                } else {
                    assert(all[i] == stayed[i]);
                    assert(!held(stayed, all[j].asset));
                }
            } else {
                assert(all[i] == stayed[i] && all[j] == stayed[j]);
            }
        }
        assert(all == positions_after(args, series, start_ms, h));
    }
}

/// How many positions were opened in the first `h` hours.
pub open spec fn opened_until(
    args: BacktestArgs,
    series: Seq<CoinSeries>,
    start_ms: int,
    h: nat,
) -> nat
    decreases h,
{
    if h == 0 {
        0
    } else {
        let t = hour_time(start_ms, h - 1);
        let ps = positions_after(args, series, start_ms, (h - 1) as nat);
        opened_until(args, series, start_ms, (h - 1) as nat) + entries(
            args,
            series,
            kept(args, series, all_accrued(series, ps, t), t),
            t,
        ).len()
    }
}

proof fn lemma_left_or_kept(
    args: BacktestArgs,
    series: Seq<CoinSeries>,
    ps: Seq<Position>,
    t: int,
)
    ensures
        left(args, series, ps, t).len() + kept(args, series, ps, t).len() == ps.len(),
    decreases ps.len(),
{
    if ps.len() > 0 {
        lemma_left_or_kept(args, series, ps.drop_last(), t);
    }
}

proof fn lemma_balance(args: BacktestArgs, series: Seq<CoinSeries>, start_ms: int, h: nat)
    ensures
        trades_after(args, series, start_ms, h).len() + positions_after(
            args,
            series,
            start_ms,
            h,
        ).len() == opened_until(args, series, start_ms, h),
    decreases h,
{
    if h > 0 {
        let k = (h - 1) as nat;
        lemma_balance(args, series, start_ms, k);
        let t = hour_time(start_ms, k as int);
        let ps = positions_after(args, series, start_ms, k);
        lemma_left_or_kept(args, series, all_accrued(series, ps, t), t);
    }
}

/// Every position that is opened ends in exactly one trade.
pub proof fn every_position_becomes_one_trade(
    args: BacktestArgs,
    series: Seq<CoinSeries>,
    start_ms: int,
    end_ms: int,
)
    ensures
        simulated(args, series, start_ms, end_ms).len() == opened_until(
            args,
            series,
            start_ms,
            hour_count(start_ms, end_ms),
        ),
{
    lemma_balance(args, series, start_ms, hour_count(start_ms, end_ms));
}

/// The entry of a trade is one that the rules allowed in the hour `k`: on the side that receives
/// the funding, and of the size that the rules give.
pub open spec fn entered_in(
    args: BacktestArgs,
    series: Seq<CoinSeries>,
    start_ms: int,
    tr: Trade,
    k: int,
) -> bool {
    let t = hour_time(start_ms, k);
    match snap_of(series, tr.asset as int, t) {
        Some(s) => {
            &&& admit_spec(args, s)
            &&& tr.entry_time_sec == seconds(t)
            &&& tr.funding_apr_at_entry == s.apr_now
            &&& tr.side == (if s.apr_now.above(0) {
                Side::Short
            } else {
                Side::Long
            })
            &&& tr.entry_tier == (match s.natural_tier {
                Some(tier) => tier,
                None => Tier::Weak,
            })
            &&& tr.size_usd == (if rate_only(args) {
                args.capital.times_spec(Binary64::ratio(10, 100))
            } else {
                args.capital.times_spec(size_fraction(tr.entry_tier))
            })
        },
        None => false,
    }
}

/// The accounts of a trade: the costs are those of its size, the net result is the gross one less
/// both, and it was held for an hour at least and never for longer than allowed.
pub open spec fn accounts_ok(args: BacktestArgs, tr: Trade) -> bool {
    &&& tr.entry_cost == cost_in_dollars(tr.size_usd, entry_cost_spec(args))
    &&& tr.exit_cost == cost_in_dollars(tr.size_usd, taker_cost(args))
    &&& tr.net_pnl == tr.gross_funding_pnl.minus_spec(tr.entry_cost).minus_spec(tr.exit_cost)
    &&& tr.entry_time_sec <= tr.exit_time_sec
    &&& tr.entry_time_sec < tr.exit_time_sec ==> tr.exit_time_sec - tr.entry_time_sec == 3600
        * tr.hold_hours
    &&& tr.entry_time_sec == tr.exit_time_sec ==> tr.hold_hours == 1
    &&& 1 <= tr.hold_hours
    &&& tr.hold_hours <= args.hold_hours || tr.hold_hours == 1
}

/// The seconds that a position may be held: an hour at least.
pub open spec fn full_time(args: BacktestArgs) -> int {
    if args.hold_hours >= 1 {
        3600 * args.hold_hours
    } else {
        3600
    }
}

/// The reason given for leaving a trade is the true one: its time was over if and only if it is
/// said so; a lost signal was lost before that, in the hour of the exit; and what the end of the
/// period closed was left in its last hour, before its time was over.
pub open spec fn reason_is_true(
    args: BacktestArgs,
    series: Seq<CoinSeries>,
    end_ms: int,
    tr: Trade,
) -> bool {
    let lasted = tr.exit_time_sec - tr.entry_time_sec;
    &&& tr.exit_reason == ExitReason::MaxHold <==> lasted == full_time(args)
    &&& tr.exit_reason == ExitReason::SignalLost ==> {
        &&& lasted < full_time(args)
        &&& args.exit_strategy != CliExitStrategy::MaxHoldOnly
        &&& !still_admit_spec(args, snap_of(series, tr.asset as int, tr.exit_time_sec * 1000))
    }
    &&& tr.exit_reason == ExitReason::EndOfPeriod ==> {
        &&& lasted < full_time(args)
        &&& tr.exit_time_sec * 1000 == last_hour(end_ms)
    }
}

/// The position that was opened in the hour `k`, with whatever funding it has received since.
spec fn opened_in(
    args: BacktestArgs,
    series: Seq<CoinSeries>,
    start_ms: int,
    p: Position,
    k: int,
) -> bool {
    let t = hour_time(start_ms, k);
    match snap_of(series, p.asset as int, t) {
        Some(s) => {
            &&& admit_spec(args, s)
            &&& p.entry_time_sec == seconds(t)
            &&& p == (Position {
                accumulated_pnl: p.accumulated_pnl,
                ..opened(args, p.asset, s, t)
            })
        },
        None => false,
    }
}

/// A position that the rules allowed to open.
spec fn lawfully_open(
    args: BacktestArgs,
    series: Seq<CoinSeries>,
    start_ms: int,
    p: Position,
) -> bool {
    exists|k: int| 0 <= k && opened_in(args, series, start_ms, p, k)
}

/// A trade that the rules allow.
pub open spec fn lawful_trade(
    args: BacktestArgs,
    series: Seq<CoinSeries>,
    start_ms: int,
    end_ms: int,
    tr: Trade,
) -> bool {
    &&& tr.asset < series.len()
    &&& accounts_ok(args, tr)
    &&& reason_is_true(args, series, end_ms, tr)
    &&& exists|k: int| 0 <= k && entered_in(args, series, start_ms, tr, k)
}

/// A position is not due at `t`: its time is not over, or it was opened then.
spec fn not_due(args: BacktestArgs, p: Position, t: int) -> bool {
    age_hours(p, t) < args.hold_hours || age_hours(p, t) == 0
}

/// Open positions as they stand when an hour begins: allowed, and an hour old at least.
spec fn standing_positions(
    args: BacktestArgs,
    series: Seq<CoinSeries>,
    start_ms: int,
    ps: Seq<Position>,
    t: int,
) -> bool {
    &&& positions_ok(args, ps, series.len(), t)
    &&& forall|i: int|
        0 <= i < ps.len() ==> {
            &&& lawfully_open(args, series, start_ms, #[trigger] ps[i])
            &&& age_hours(ps[i], t) >= 1
        }
}

proof fn lemma_lawful_exit(
    args: BacktestArgs,
    series: Seq<CoinSeries>,
    start_ms: int,
    end_ms: int,
    p: Position,
    t: int,
    apr: Option<Binary64>,
    reason: ExitReason,
)
    requires
        lawfully_open(args, series, start_ms, p),
        p.asset < series.len(),
        within_time(args, p, t),
        i64::MIN <= t <= i64::MAX,
        t % 1000 == 0,
        reason == ExitReason::MaxHold ==> age_hours(p, t) >= args.hold_hours && age_hours(p, t)
            >= 1,
        reason == ExitReason::SignalLost ==> 1 <= age_hours(p, t) < args.hold_hours
            && !still_admit_spec(args, snap_of(series, p.asset as int, t)),
        reason == ExitReason::EndOfPeriod ==> t == last_hour(end_ms) && not_due(args, p, t),
    ensures
        lawful_trade(args, series, start_ms, end_ms, trade_of(args, p, t, apr, reason)),
{
    let k = choose|k: int| 0 <= k && opened_in(args, series, start_ms, p, k);
    let tr = trade_of(args, p, t, apr, reason);
    assert(entered_in(args, series, start_ms, tr, k));
}

proof fn lemma_accrued_is_lawful(
    args: BacktestArgs,
    series: Seq<CoinSeries>,
    start_ms: int,
    p: Position,
    t: int,
)
    requires
        lawfully_open(args, series, start_ms, p),
    ensures
        lawfully_open(args, series, start_ms, accrued(series, p, t)),
{
    let k = choose|k: int| 0 <= k && opened_in(args, series, start_ms, p, k);
    assert(opened_in(args, series, start_ms, accrued(series, p, t), k));
}

/// The trade of a position that is left at `t`.
pub open spec fn exit_of(
    args: BacktestArgs,
    series: Seq<CoinSeries>,
    p: Position,
    t: int,
) -> Trade {
    trade_of(
        args,
        p,
        t,
        exit_apr(series, p.asset as int, t),
        reason_to_leave(args, series, p, t)->0,
    )
}

/// Each trade of an hour is the exit of an open position, in the order of the positions.
pub proof fn lemma_left_members(
    args: BacktestArgs,
    series: Seq<CoinSeries>,
    ps: Seq<Position>,
    t: int,
) -> (place: Seq<int>)
    ensures
        place.len() == left(args, series, ps, t).len(),
        forall|i: int|
            0 <= i < place.len() ==> {
                &&& 0 <= #[trigger] place[i] < ps.len()
                &&& reason_to_leave(args, series, ps[place[i]], t) is Some
                &&& left(args, series, ps, t)[i] == exit_of(args, series, ps[place[i]], t)
            },
        forall|i: int, j: int|
            0 <= i < j < place.len() ==> #[trigger] place[i] < #[trigger] place[j],
    decreases ps.len(),
{
    if ps.len() == 0 {
        Seq::empty()
    } else {
        let rest = ps.drop_last();
        let before = lemma_left_members(args, series, rest, t);
        assert forall|i: int| 0 <= i < before.len() implies ps[#[trigger] before[i]]
            == rest[before[i]] by {}
        if reason_to_leave(args, series, ps.last(), t) is Some {
            before.push(ps.len() - 1)
        } else {
            before
        }
    }
}

proof fn lemma_lawful_left(
    args: BacktestArgs,
    series: Seq<CoinSeries>,
    start_ms: int,
    end_ms: int,
    ps: Seq<Position>,
    t: int,
)
    requires
        standing_positions(args, series, start_ms, ps, t),
        i64::MIN <= t <= i64::MAX,
        t % 1000 == 0,
    ensures
        forall|i: int|
            0 <= i < left(args, series, ps, t).len() ==> lawful_trade(
                args,
                series,
                start_ms,
                end_ms,
                #[trigger] left(args, series, ps, t)[i],
            ),
{
    reveal(positions_ok);
    let place = lemma_left_members(args, series, ps, t);
    let all = left(args, series, ps, t);
    assert forall|i: int| 0 <= i < all.len() implies lawful_trade(
        args,
        series,
        start_ms,
        end_ms,
        #[trigger] all[i],
    ) by {
        let p = ps[place[i]];
        lemma_lawful_exit(
            args,
            series,
            start_ms,
            end_ms,
            p,
            t,
            exit_apr(series, p.asset as int, t),
            reason_to_leave(args, series, p, t)->0,
        );
    }
}

/// Accrual keeps the positions of an hour what they are.
proof fn lemma_accrued_stand(
    args: BacktestArgs,
    series: Seq<CoinSeries>,
    start_ms: int,
    ps: Seq<Position>,
    t: int,
)
    requires
        standing_positions(args, series, start_ms, ps, t),
    ensures
        standing_positions(args, series, start_ms, all_accrued(series, ps, t), t),
{
    reveal(positions_ok);
    let acc = all_accrued(series, ps, t);
    assert forall|i: int| 0 <= i < acc.len() implies {
        &&& (#[trigger] acc[i]).asset < series.len()
        &&& within_time(args, acc[i], t)
        &&& lawfully_open(args, series, start_ms, acc[i])
        &&& age_hours(acc[i], t) >= 1
    } by {
        assert(acc[i] == accrued(series, ps[i], t));
        lemma_accrued_is_lawful(args, series, start_ms, ps[i], t);
    }
}

proof fn lemma_step(
    args: BacktestArgs,
    series: Seq<CoinSeries>,
    start_ms: int,
    end_ms: int,
    h: nat,
)
    requires
        series.len() <= usize::MAX,
        period_fits(start_ms, end_ms),
        h < hour_count(start_ms, end_ms),
        standing_positions(
            args,
            series,
            start_ms,
            positions_after(args, series, start_ms, h),
            hour_time(start_ms, h as int),
        ),
    ensures
        standing_positions(
            args,
            series,
            start_ms,
            positions_after(args, series, start_ms, h + 1),
            hour_time(start_ms, h as int + 1),
        ),
        positions_ok(
            args,
            positions_after(args, series, start_ms, h + 1),
            series.len(),
            hour_time(start_ms, h as int),
        ),
{
    reveal(positions_ok);
    let t = hour_time(start_ms, h as int);
    let next = hour_time(start_ms, h as int + 1);
    lemma_hour_bounds(start_ms, end_ms, h as int);
    let ps = positions_after(args, series, start_ms, h);
    lemma_positions_ok(args, series, ps, t, next);
    lemma_accrued_stand(args, series, start_ms, ps, t);
    let acc = all_accrued(series, ps, t);
    let stayed = kept(args, series, acc, t);
    lemma_kept_members(args, series, acc, t);
    lemma_entries(args, series, stayed, t);
    let fresh = entries(args, series, stayed, t);
    let all = after_hour(args, series, ps, t);
    assert(all == stayed + fresh);
    assert(positions_after(args, series, start_ms, h + 1) == all);
    assert forall|i: int| 0 <= i < all.len() implies {
        &&& lawfully_open(args, series, start_ms, #[trigger] all[i])
        &&& age_hours(all[i], next) >= 1
    } by {
        assert(within_time(args, all[i], t));
        if i < stayed.len() {
            assert(all[i] == stayed[i]);
            let j = choose|j: int| 0 <= j < acc.len() && acc[j] == stayed[i];
            assert(lawfully_open(args, series, start_ms, acc[j]));
        } else {
            assert(all[i] == fresh[i - stayed.len()]);
            assert(opened_in(args, series, start_ms, all[i], h as int));
        }
    }
}

proof fn lemma_standing(
    args: BacktestArgs,
    series: Seq<CoinSeries>,
    start_ms: int,
    end_ms: int,
    h: nat,
)
    requires
        series.len() <= usize::MAX,
        period_fits(start_ms, end_ms),
        h <= hour_count(start_ms, end_ms),
    ensures
        standing_positions(
            args,
            series,
            start_ms,
            positions_after(args, series, start_ms, h),
            hour_time(start_ms, h as int),
        ),
        h > 0 ==> positions_ok(
            args,
            positions_after(args, series, start_ms, h),
            series.len(),
            hour_time(start_ms, h - 1),
        ),
        h == 0 ==> positions_after(args, series, start_ms, h).len() == 0,
    decreases h,
{
    reveal(positions_ok);
    if h > 0 {
        let k = (h - 1) as nat;
        lemma_standing(args, series, start_ms, end_ms, k);
        lemma_step(args, series, start_ms, end_ms, k);
    }
}

/// Every open position is of a coin of the replay.
pub proof fn open_positions_are_of_known_coins(
    args: BacktestArgs,
    series: Seq<CoinSeries>,
    start_ms: int,
    end_ms: int,
    h: nat,
)
    requires
        series.len() <= usize::MAX,
        period_fits(start_ms, end_ms),
        h <= hour_count(start_ms, end_ms),
    ensures
        forall|i: int|
            0 <= i < positions_after(args, series, start_ms, h).len() ==> (
            #[trigger] positions_after(args, series, start_ms, h)[i]).asset < series.len(),
{
    reveal(positions_ok);
    lemma_standing(args, series, start_ms, end_ms, h);
}

proof fn lemma_lawful_until(
    args: BacktestArgs,
    series: Seq<CoinSeries>,
    start_ms: int,
    end_ms: int,
    h: nat,
)
    requires
        series.len() <= usize::MAX,
        period_fits(start_ms, end_ms),
        h <= hour_count(start_ms, end_ms),
    ensures
        forall|i: int|
            0 <= i < trades_after(args, series, start_ms, h).len() ==> lawful_trade(
                args,
                series,
                start_ms,
                end_ms,
                #[trigger] trades_after(args, series, start_ms, h)[i],
            ),
    decreases h,
{
    if h > 0 {
        let k = (h - 1) as nat;
        lemma_lawful_until(args, series, start_ms, end_ms, k);
        lemma_standing(args, series, start_ms, end_ms, k);
        lemma_hour_bounds(start_ms, end_ms, k as int);
        let t = hour_time(start_ms, k as int);
        let ps = positions_after(args, series, start_ms, k);
        lemma_accrued_stand(args, series, start_ms, ps, t);
        let acc = all_accrued(series, ps, t);
        lemma_lawful_left(args, series, start_ms, end_ms, acc, t);
        let before = trades_after(args, series, start_ms, k);
        let fresh = left(args, series, acc, t);
        let now = trades_after(args, series, start_ms, h);
        assert(now == before + fresh);
        assert forall|i: int| 0 <= i < now.len() implies lawful_trade(
            args,
            series,
            start_ms,
            end_ms,
            #[trigger] now[i],
        ) by {
            if i < before.len() {
                assert(now[i] == before[i]);
            } else {
                assert(now[i] == fresh[i - before.len()]);
            }
        }
    }
}

/// After an hour no open position is due in it.
proof fn lemma_none_is_due(
    args: BacktestArgs,
    series: Seq<CoinSeries>,
    start_ms: int,
    end_ms: int,
    h: nat,
)
    requires
        series.len() <= usize::MAX,
        period_fits(start_ms, end_ms),
        0 < h <= hour_count(start_ms, end_ms),
    ensures
        forall|i: int|
            0 <= i < positions_after(args, series, start_ms, h).len() ==> not_due(
                args,
                #[trigger] positions_after(args, series, start_ms, h)[i],
                hour_time(start_ms, h - 1),
            ),
{
    let k = (h - 1) as nat;
    let t = hour_time(start_ms, k as int);
    lemma_hour_bounds(start_ms, end_ms, k as int);
    let acc = all_accrued(series, positions_after(args, series, start_ms, k), t);
    let stayed = kept(args, series, acc, t);
    lemma_kept_members(args, series, acc, t);
    lemma_entries(args, series, stayed, t);
    let fresh = entries(args, series, stayed, t);
    let all = positions_after(args, series, start_ms, h);
    assert(all == stayed + fresh);
    assert forall|i: int| 0 <= i < all.len() implies not_due(args, #[trigger] all[i], t) by {
        if i < stayed.len() {
            assert(all[i] == stayed[i]);
            assert(reason_to_leave(args, series, stayed[i], t) is None);
        } else {
            assert(all[i] == fresh[i - stayed.len()]);
        }
    }
}

/// Every trade of a backtest is of a known coin, was entered by the rules, keeps its accounts and
/// was left for the reason that it gives; under `MaxHoldOnly` none is left for a lost signal.
pub proof fn every_trade_is_lawful(
    args: BacktestArgs,
    series: Seq<CoinSeries>,
    start_ms: int,
    end_ms: int,
)
    requires
        series.len() <= usize::MAX,
        period_fits(start_ms, end_ms),
    ensures
        forall|i: int|
            0 <= i < simulated(args, series, start_ms, end_ms).len() ==> lawful_trade(
                args,
                series,
                start_ms,
                end_ms,
                #[trigger] simulated(args, series, start_ms, end_ms)[i],
            ),
{
    reveal(positions_ok);
    let n = hour_count(start_ms, end_ms);
    let t = last_hour(end_ms);
    lemma_lawful_until(args, series, start_ms, end_ms, n);
    lemma_standing(args, series, start_ms, end_ms, n);
    lemma_hours(start_ms, end_ms);
    if n > 0 {
        lemma_none_is_due(args, series, start_ms, end_ms, n);
        lemma_hour_bounds(start_ms, end_ms, n - 1);
    }
    let ps = positions_after(args, series, start_ms, n);
    let before = trades_after(args, series, start_ms, n);
    let tail = closing(args, series, ps, t);
    let all = simulated(args, series, start_ms, end_ms);
    assert(all == before + tail);
    assert forall|i: int| 0 <= i < all.len() implies lawful_trade(
        args,
        series,
        start_ms,
        end_ms,
        #[trigger] all[i],
    ) by {
        if i < before.len() {
            assert(all[i] == before[i]);
        } else {
            let p = ps[i - before.len()];
            assert(within_time(args, p, t));
            assert(not_due(args, p, t));
            assert(all[i] == tail[i - before.len()]);
            lemma_lawful_exit(
                args,
                series,
                start_ms,
                end_ms,
                p,
                t,
                crate::backtest::apr_at_spec(series[p.asset as int].points@, t),
                ExitReason::EndOfPeriod,
            );
        }
    }
}

/// A trade ends before the next one of its coin begins, and trades are listed as they end.
pub open spec fn one_after_another(trades: Seq<Trade>) -> bool {
    forall|i: int, j: int|
        0 <= i < j < trades.len() ==> {
            &&& (#[trigger] trades[i]).exit_time_sec <= (#[trigger] trades[j]).exit_time_sec
            &&& trades[i].asset == trades[j].asset ==> trades[i].exit_time_sec
                <= trades[j].entry_time_sec
        }
}

/// The trades so far are over before the open positions of their coins begin.
spec fn over_before(trades: Seq<Trade>, ps: Seq<Position>, now: int) -> bool {
    &&& forall|i: int| 0 <= i < trades.len() ==> (#[trigger] trades[i]).exit_time_sec <= now
    &&& forall|i: int, j: int|
        0 <= i < trades.len() && 0 <= j < ps.len() && (#[trigger] trades[i]).asset == (
        #[trigger] ps[j]).asset ==> trades[i].exit_time_sec <= ps[j].entry_time_sec
}

/// The exits of an hour, appended to what was over before them.
proof fn lemma_append_exits(
    trades: Seq<Trade>,
    ps: Seq<Position>,
    place: Seq<int>,
    fresh: Seq<Trade>,
    t: int,
)
    requires
        i64::MIN <= t <= i64::MAX,
        one_after_another(trades),
        over_before(trades, ps, seconds(t)),
        coins_differ(ps),
        place.len() == fresh.len(),
        forall|i: int|
            0 <= i < place.len() ==> {
                &&& 0 <= #[trigger] place[i] < ps.len()
                &&& fresh[i].asset == ps[place[i]].asset
                &&& fresh[i].entry_time_sec == ps[place[i]].entry_time_sec
                &&& fresh[i].exit_time_sec == seconds(t)
            },
        forall|i: int, j: int|
            0 <= i < j < place.len() ==> #[trigger] place[i] < #[trigger] place[j],
    ensures
        one_after_another(trades + fresh),
{
    let all = trades + fresh;
    assert forall|i: int, j: int| 0 <= i < j < all.len() implies {
        &&& (#[trigger] all[i]).exit_time_sec <= (#[trigger] all[j]).exit_time_sec
        &&& all[i].asset == all[j].asset ==> all[i].exit_time_sec <= all[j].entry_time_sec
    } by {
        if j < trades.len() {
            assert(all[i] == trades[i] && all[j] == trades[j]);
        } else {
            let b = place[j - trades.len()];
            assert(all[j] == fresh[j - trades.len()]);
            if i < trades.len() {
                assert(all[i] == trades[i]);
            } else {
                let a = place[i - trades.len()];
                assert(all[i] == fresh[i - trades.len()]);
                assert(ps[a].asset != ps[b].asset);
            }
        }
    }
}

proof fn lemma_order_step(
    args: BacktestArgs,
    series: Seq<CoinSeries>,
    start_ms: int,
    end_ms: int,
    h: nat,
)
    requires
        series.len() <= usize::MAX,
        period_fits(start_ms, end_ms),
        h < hour_count(start_ms, end_ms),
        one_after_another(trades_after(args, series, start_ms, h)),
        over_before(
            trades_after(args, series, start_ms, h),
            positions_after(args, series, start_ms, h),
            seconds(hour_time(start_ms, h as int)),
        ),
    ensures
        one_after_another(trades_after(args, series, start_ms, h + 1)),
        over_before(
            trades_after(args, series, start_ms, h + 1),
            positions_after(args, series, start_ms, h + 1),
            seconds(hour_time(start_ms, h as int)),
        ),
{
    let t = hour_time(start_ms, h as int);
    lemma_hour_bounds(start_ms, end_ms, h as int);
    let ps = positions_after(args, series, start_ms, h);
    let before = trades_after(args, series, start_ms, h);
    each_coin_is_held_at_most_once(args, series, start_ms, end_ms, h);
    let acc = all_accrued(series, ps, t);
    assert forall|i: int| 0 <= i < acc.len() implies {
        &&& (#[trigger] acc[i]).asset == ps[i].asset
        &&& acc[i].entry_time_sec == ps[i].entry_time_sec
    } by {
        assert(acc[i] == accrued(series, ps[i], t));
    }
    assert(coins_differ(acc));
    assert(over_before(before, acc, seconds(t)));
    let place = lemma_left_members(args, series, acc, t);
    let fresh = left(args, series, acc, t);
    lemma_append_exits(before, acc, place, fresh, t);
    let trades = trades_after(args, series, start_ms, h + 1);
    assert(trades == before + fresh);
    let stayed = kept(args, series, acc, t);
    lemma_kept_members(args, series, acc, t);
    lemma_entries(args, series, stayed, t);
    let entered = entries(args, series, stayed, t);
    let all = positions_after(args, series, start_ms, h + 1);
    assert(all == stayed + entered);
    assert forall|i: int| 0 <= i < trades.len() implies (#[trigger] trades[i]).exit_time_sec
        <= seconds(t) by {
        if i < before.len() {
            assert(trades[i] == before[i]);
        } else {
            let k = place[i - before.len()];
            assert(trades[i] == fresh[i - before.len()]);
        }
    }
    assert forall|i: int, j: int|
        0 <= i < trades.len() && 0 <= j < all.len() && (#[trigger] trades[i]).asset == (
        #[trigger] all[j]).asset implies trades[i].exit_time_sec <= all[j].entry_time_sec by {
        if j < stayed.len() {
            assert(all[j] == stayed[j]);
            let m = choose|m: int| 0 <= m < acc.len() && acc[m] == stayed[j];
            if i < before.len() {
                assert(trades[i] == before[i]);
                assert(before[i].exit_time_sec <= acc[m].entry_time_sec);
            } else {
                let k = place[i - before.len()];
                assert(trades[i] == fresh[i - before.len()]);
                assert(acc[k].asset == acc[m].asset);
                assert(k == m);
            }
        } else {
            assert(all[j] == entered[j - stayed.len()]);
        }
    }
}

proof fn lemma_order_until(
    args: BacktestArgs,
    series: Seq<CoinSeries>,
    start_ms: int,
    end_ms: int,
    h: nat,
)
    requires
        series.len() <= usize::MAX,
        period_fits(start_ms, end_ms),
        h <= hour_count(start_ms, end_ms),
    ensures
        one_after_another(trades_after(args, series, start_ms, h)),
        over_before(
            trades_after(args, series, start_ms, h),
            positions_after(args, series, start_ms, h),
            seconds(hour_time(start_ms, h - 1)),
        ),
    decreases h,
{
    if h > 0 {
        let k = (h - 1) as nat;
        lemma_order_until(args, series, start_ms, end_ms, k);
        lemma_hour_bounds(start_ms, end_ms, k as int);
        let before = trades_after(args, series, start_ms, k);
        assert(seconds(hour_time(start_ms, k - 1)) <= seconds(hour_time(start_ms, k as int)));
        lemma_order_step(args, series, start_ms, end_ms, k);
    }
}

/// The trades of a backtest are listed as they end, and those of one coin do not overlap.
pub proof fn trades_of_a_coin_do_not_overlap(
    args: BacktestArgs,
    series: Seq<CoinSeries>,
    start_ms: int,
    end_ms: int,
)
    requires
        series.len() <= usize::MAX,
        period_fits(start_ms, end_ms),
    ensures
        one_after_another(simulated(args, series, start_ms, end_ms)),
{
    let n = hour_count(start_ms, end_ms);
    let t = last_hour(end_ms);
    lemma_hours(start_ms, end_ms);
    lemma_order_until(args, series, start_ms, end_ms, n);
    let before = trades_after(args, series, start_ms, n);
    let ps = positions_after(args, series, start_ms, n);
    let tail = closing(args, series, ps, t);
    assert(simulated(args, series, start_ms, end_ms) == before + tail);
    if n == 0 {
        assert(before + tail =~= Seq::<Trade>::empty());
    } else {
        each_coin_is_held_at_most_once(args, series, start_ms, end_ms, n);
        let place = Seq::new(tail.len(), |i: int| i);
        lemma_append_exits(before, ps, place, tail, t);
    }
}

/// The parameters agree but for those that their strategy does not read: under `Hysteresis` the
/// rate and the tier that entries ask for otherwise, and under the others the two thresholds of
/// `Hysteresis` and, where entries ask for a rate, the tier.
pub open spec fn same_where_read(a: BacktestArgs, b: BacktestArgs) -> bool {
    if a.exit_strategy == CliExitStrategy::Hysteresis {
        b == (BacktestArgs {
            min_funding_apr: b.min_funding_apr,
            min_tier: b.min_tier,
            ..a
        })
    } else {
        &&& b == (BacktestArgs {
            min_tier: b.min_tier,
            hysteresis_entry_apr: b.hysteresis_entry_apr,
            hysteresis_exit_apr: b.hysteresis_exit_apr,
            ..a
        })
        &&& a.min_funding_apr is None ==> b.min_tier == a.min_tier
    }
}

proof fn lemma_same_exits(
    a: BacktestArgs,
    b: BacktestArgs,
    series: Seq<CoinSeries>,
    ps: Seq<Position>,
    t: int,
)
    requires
        same_where_read(a, b),
    ensures
        left(a, series, ps, t) == left(b, series, ps, t),
        kept(a, series, ps, t) == kept(b, series, ps, t),
    decreases ps.len(),
{
    if ps.len() > 0 {
        lemma_same_exits(a, b, series, ps.drop_last(), t);
        assert(reason_to_leave(a, series, ps.last(), t) == reason_to_leave(
            b,
            series,
            ps.last(),
            t,
        ));
    }
}

proof fn lemma_same_candidates(
    a: BacktestArgs,
    b: BacktestArgs,
    series: Seq<CoinSeries>,
    open: Seq<Position>,
    t: int,
    n: nat,
)
    requires
        same_where_read(a, b),
    ensures
        candidates(a, series, open, t, n) == candidates(b, series, open, t, n),
    decreases n,
{
    if n > 0 {
        lemma_same_candidates(a, b, series, open, t, (n - 1) as nat);
    }
}

proof fn lemma_same_entries(
    a: BacktestArgs,
    b: BacktestArgs,
    series: Seq<CoinSeries>,
    open: Seq<Position>,
    t: int,
)
    requires
        same_where_read(a, b),
    ensures
        entries(a, series, open, t) == entries(b, series, open, t),
{
    lemma_same_candidates(a, b, series, open, t, series.len());
    let coins = candidates(a, series, open, t, series.len());
    assert(entry_keys(a, series, coins, t) =~= entry_keys(b, series, coins, t));
    assert(entries(a, series, open, t) =~= entries(b, series, open, t));
}

proof fn lemma_same_hours(
    a: BacktestArgs,
    b: BacktestArgs,
    series: Seq<CoinSeries>,
    start_ms: int,
    h: nat,
)
    requires
        same_where_read(a, b),
    ensures
        positions_after(a, series, start_ms, h) == positions_after(b, series, start_ms, h),
        trades_after(a, series, start_ms, h) == trades_after(b, series, start_ms, h),
    decreases h,
{
    if h > 0 {
        let k = (h - 1) as nat;
        lemma_same_hours(a, b, series, start_ms, k);
        let t = hour_time(start_ms, k as int);
        let acc = all_accrued(series, positions_after(a, series, start_ms, k), t);
        lemma_same_exits(a, b, series, acc, t);
        lemma_same_entries(a, b, series, kept(a, series, acc, t), t);
    }
}

/// A backtest does not depend on the parameters that its strategy does not read: `Hysteresis`
/// ignores the rate and the tier that entries ask for otherwise, the other strategies ignore its
/// thresholds, and a rate takes the place of the tier.
pub proof fn unread_parameters_do_not_matter(
    a: BacktestArgs,
    b: BacktestArgs,
    series: Seq<CoinSeries>,
    start_ms: int,
    end_ms: int,
)
    requires
        same_where_read(a, b),
    ensures
        simulated(a, series, start_ms, end_ms) == simulated(b, series, start_ms, end_ms),
{
    let n = hour_count(start_ms, end_ms);
    lemma_same_hours(a, b, series, start_ms, n);
    let ps = positions_after(a, series, start_ms, n);
    let t = last_hour(end_ms);
    assert(closing(a, series, ps, t) =~= closing(b, series, ps, t));
}

/// How many of the trades are open at a moment: entered by then and not left yet.
pub open spec fn open_at(trades: Seq<Trade>, x: int) -> nat
    decreases trades.len(),
{
    if trades.len() == 0 {
        0
    } else {
        open_at(trades.drop_last(), x) + (if trades.last().entry_time_sec <= x
            < trades.last().exit_time_sec {
            1nat
        } else {
            0
        })
    }
}

/// How many of the positions are entered by a moment.
spec fn entered_by(ps: Seq<Position>, x: int) -> nat
    decreases ps.len(),
{
    if ps.len() == 0 {
        0
    } else {
        entered_by(ps.drop_last(), x) + (if ps.last().entry_time_sec <= x {
            1nat
        } else {
            0
        })
    }
}

proof fn lemma_open_at_sum(a: Seq<Trade>, b: Seq<Trade>, x: int)
    ensures
        open_at(a + b, x) == open_at(a, x) + open_at(b, x),
    decreases b.len(),
{
    if b.len() == 0 {
        assert(a + b =~= a);
    } else {
        assert((a + b).drop_last() =~= a + b.drop_last());
        lemma_open_at_sum(a, b.drop_last(), x);
    }
}

proof fn lemma_entered_by_sum(a: Seq<Position>, b: Seq<Position>, x: int)
    ensures
        entered_by(a + b, x) == entered_by(a, x) + entered_by(b, x),
    decreases b.len(),
{
    if b.len() == 0 {
        assert(a + b =~= a);
    } else {
        assert((a + b).drop_last() =~= a + b.drop_last());
        lemma_entered_by_sum(a, b.drop_last(), x);
    }
}

proof fn lemma_entered_by_bound(ps: Seq<Position>, x: int)
    ensures
        entered_by(ps, x) <= ps.len(),
    decreases ps.len(),
{
    if ps.len() > 0 {
        lemma_entered_by_bound(ps.drop_last(), x);
    }
}

proof fn lemma_none_entered(ps: Seq<Position>, x: int)
    requires
        forall|i: int| 0 <= i < ps.len() ==> (#[trigger] ps[i]).entry_time_sec > x,
    ensures
        entered_by(ps, x) == 0,
    decreases ps.len(),
{
    if ps.len() > 0 {
        let rest = ps.drop_last();
        assert forall|i: int| 0 <= i < rest.len() implies (#[trigger] rest[i]).entry_time_sec
            > x by {
            assert(rest[i] == ps[i]);
        }
        lemma_none_entered(rest, x);
        assert(ps[ps.len() - 1].entry_time_sec > x);
    }
}

proof fn lemma_none_open(trades: Seq<Trade>, x: int)
    requires
        forall|i: int| 0 <= i < trades.len() ==> (#[trigger] trades[i]).exit_time_sec <= x,
    ensures
        open_at(trades, x) == 0,
    decreases trades.len(),
{
    if trades.len() > 0 {
        let rest = trades.drop_last();
        assert forall|i: int| 0 <= i < rest.len() implies (#[trigger] rest[i]).exit_time_sec
            <= x by {
            assert(rest[i] == trades[i]);
        }
        lemma_none_open(rest, x);
        assert(trades[trades.len() - 1].exit_time_sec <= x);
    }
}

/// Before an hour is over, those who leave in it and those who stay are those who were open.
proof fn lemma_left_and_kept(
    args: BacktestArgs,
    series: Seq<CoinSeries>,
    ps: Seq<Position>,
    t: int,
    x: int,
)
    requires
        i64::MIN <= t <= i64::MAX,
        x < seconds(t),
    ensures
        open_at(left(args, series, ps, t), x) + entered_by(kept(args, series, ps, t), x)
            == entered_by(ps, x),
    decreases ps.len(),
{
    if ps.len() > 0 {
        let rest = ps.drop_last();
        lemma_left_and_kept(args, series, rest, t, x);
        let p = ps.last();
        if reason_to_leave(args, series, p, t) is Some {
            let tr = exit_of(args, series, p, t);
            assert(left(args, series, ps, t) == left(args, series, rest, t).push(tr));
            assert(left(args, series, ps, t).drop_last() =~= left(args, series, rest, t));
            assert(tr.exit_time_sec == seconds(t));
        } else {
            assert(kept(args, series, ps, t).drop_last() =~= kept(args, series, rest, t));
        }
    }
}

proof fn lemma_accrued_entered(series: Seq<CoinSeries>, ps: Seq<Position>, t: int, x: int)
    ensures
        entered_by(all_accrued(series, ps, t), x) == entered_by(ps, x),
    decreases ps.len(),
{
    let acc = all_accrued(series, ps, t);
    if ps.len() > 0 {
        assert(acc.drop_last() =~= all_accrued(series, ps.drop_last(), t));
        lemma_accrued_entered(series, ps.drop_last(), t, x);
        assert(acc.last() == accrued(series, ps.last(), t));
    }
}

/// Before the next hour, the trades so far and the open positions together are no more at any
/// moment than allowed.
proof fn lemma_open_until(
    args: BacktestArgs,
    series: Seq<CoinSeries>,
    start_ms: int,
    end_ms: int,
    h: nat,
    x: int,
)
    requires
        series.len() <= usize::MAX,
        period_fits(start_ms, end_ms),
        h <= hour_count(start_ms, end_ms),
        x < seconds(hour_time(start_ms, h as int)),
    ensures
        open_at(trades_after(args, series, start_ms, h), x) + entered_by(
            positions_after(args, series, start_ms, h),
            x,
        ) <= args.max_positions,
    decreases h,
{
    if h > 0 {
        let k = (h - 1) as nat;
        let t = hour_time(start_ms, k as int);
        lemma_hour_bounds(start_ms, end_ms, k as int);
        let ps = positions_after(args, series, start_ms, k);
        let acc = all_accrued(series, ps, t);
        let stayed = kept(args, series, acc, t);
        let entered = entries(args, series, stayed, t);
        if x < seconds(t) {
            lemma_open_until(args, series, start_ms, end_ms, k, x);
            lemma_accrued_entered(series, ps, t, x);
            lemma_left_and_kept(args, series, acc, t, x);
            lemma_open_at_sum(
                trades_after(args, series, start_ms, k),
                left(args, series, acc, t),
                x,
            );
            lemma_entries(args, series, stayed, t);
            lemma_none_entered(entered, x);
            lemma_entered_by_sum(stayed, entered, x);
        } else {
            lemma_order_until(args, series, start_ms, end_ms, h);
            lemma_none_open(trades_after(args, series, start_ms, h), x);
            open_positions_never_exceed_the_limit(args, series, start_ms, end_ms, h);
            lemma_entered_by_bound(positions_after(args, series, start_ms, h), x);
        }
    }
}

proof fn lemma_closing_open(
    args: BacktestArgs,
    series: Seq<CoinSeries>,
    ps: Seq<Position>,
    t: int,
    x: int,
)
    requires
        i64::MIN <= t <= i64::MAX,
    ensures
        open_at(closing(args, series, ps, t), x) <= entered_by(ps, x),
        x >= seconds(t) ==> open_at(closing(args, series, ps, t), x) == 0,
    decreases ps.len(),
{
    if ps.len() > 0 {
        let rest = ps.drop_last();
        lemma_closing_open(args, series, rest, t, x);
        assert(closing(args, series, ps, t).drop_last() =~= closing(args, series, rest, t));
    }
}

/// At no moment are more of the trades of a backtest open than positions are allowed.
pub proof fn no_more_trades_are_open_than_allowed(
    args: BacktestArgs,
    series: Seq<CoinSeries>,
    start_ms: int,
    end_ms: int,
    x: int,
)
    requires
        series.len() <= usize::MAX,
        period_fits(start_ms, end_ms),
    ensures
        open_at(simulated(args, series, start_ms, end_ms), x) <= args.max_positions,
{
    let n = hour_count(start_ms, end_ms);
    let t = last_hour(end_ms);
    lemma_hours(start_ms, end_ms);
    let trades = trades_after(args, series, start_ms, n);
    let ps = positions_after(args, series, start_ms, n);
    lemma_open_at_sum(trades, closing(args, series, ps, t), x);
    lemma_closing_open(args, series, ps, t, x);
    if n > 0 {
        lemma_hour_bounds(start_ms, end_ms, n - 1);
        if x < seconds(t) {
            lemma_open_until(args, series, start_ms, end_ms, n, x);
        } else {
            lemma_order_until(args, series, start_ms, end_ms, n);
            lemma_none_open(trades, x);
        }
    }
}

/// The positions that are kept in the hour `h`, before others are opened beside them.
pub open spec fn stayed_in(
    args: BacktestArgs,
    series: Seq<CoinSeries>,
    start_ms: int,
    h: nat,
) -> Seq<Position> {
    let t = hour_time(start_ms, h as int);
    kept(args, series, all_accrued(series, positions_after(args, series, start_ms, h), t), t)
}

/// The rank of a reading's tier; zero where it has none.
pub open spec fn rank_of(snap: AssetSnap) -> nat {
    match snap.natural_tier {
        Some(t) => rank_spec(t),
        None => 0,
    }
}

/// A reading is at least as strong as another: by the size of the rate, and, where entries go by
/// tiers, by the rank of the tier before it.
pub open spec fn as_strong_as(args: BacktestArgs, a: AssetSnap, b: AssetSnap) -> bool {
    if rate_only(args) || rank_of(a) == rank_of(b) {
        b.apr_now.abs_spec().at_most(a.apr_now.abs_spec())
    } else {
        rank_of(a) > rank_of(b)
    }
}

/// The larger key is that of the stronger reading.
proof fn lemma_keys_tell_strength(args: BacktestArgs, a: AssetSnap, b: AssetSnap)
    requires
        entry_key(args, a) >= entry_key(args, b),
        !a.apr_now.nan(),
        !b.apr_now.nan(),
    ensures
        as_strong_as(args, a, b),
{
    let x = a.apr_now.abs_spec();
    let y = b.apr_now.abs_spec();
    crate::binary64::lemma_key_order(x, y);
    assert(0 <= x.key() < 0x1_0000_0000_0000_0000);
    assert(0 <= y.key() < 0x1_0000_0000_0000_0000);
}

/// The coins that may be entered, as they are ranked: all of them, and each before no larger key.
proof fn lemma_ranked(
    args: BacktestArgs,
    series: Seq<CoinSeries>,
    open: Seq<Position>,
    t: int,
)
    requires
        series.len() <= usize::MAX,
    ensures
        ({
            let all = ranked(
                args,
                series,
                candidates(args, series, open, t, series.len()),
                t,
            );
            &&& forall|c: usize|
                c < series.len() && enterable(args, series, open, t, c)
                    ==> #[trigger] all.contains(c)
            &&& forall|i: int, j: int|
                0 <= i < j < all.len() ==> entry_key(
                    args,
                    snap_of(series, #[trigger] all[i] as int, t)->0,
                ) >= entry_key(args, snap_of(series, #[trigger] all[j] as int, t)->0)
        }),
{
    let coins = candidates(args, series, open, t, series.len());
    let keys = entry_keys(args, series, coins, t);
    let order = descending(keys);
    let all = ranked(args, series, coins, t);
    lemma_candidates(args, series, open, t, series.len());
    crate::order::descending_is_a_stable_sort(keys);
    assert forall|c: usize| c < series.len() && enterable(args, series, open, t, c) implies
        #[trigger] all.contains(c) by {
        assert(coins.contains(c));
        let k = choose|k: int| 0 <= k < coins.len() && coins[k] == c;
        assert(order.contains(k as usize));
        let i = choose|i: int| 0 <= i < order.len() && order[i] == k as usize;
        assert(all[i] == c);
    }
    assert forall|i: int, j: int| 0 <= i < j < all.len() implies entry_key(
        args,
        snap_of(series, #[trigger] all[i] as int, t)->0,
    ) >= entry_key(args, snap_of(series, #[trigger] all[j] as int, t)->0) by {
        let a = order[i];
        let b = order[j];
        assert(a < keys.len() && b < keys.len());
        assert(keys[a as int] >= keys[b as int]);
        assert(all[i] == coins[a as int] && all[j] == coins[b as int]);
    }
}

/// No place stays free while a coin may be entered: where there is room after an hour, every coin
/// that could be entered in it is held.
pub proof fn no_place_stays_free(
    args: BacktestArgs,
    series: Seq<CoinSeries>,
    start_ms: int,
    h: nat,
    c: usize,
)
    requires
        series.len() <= usize::MAX,
        c < series.len(),
        enterable(
            args,
            series,
            stayed_in(args, series, start_ms, h),
            hour_time(start_ms, h as int),
            c,
        ),
        positions_after(args, series, start_ms, h + 1).len() < args.max_positions,
    ensures
        held(positions_after(args, series, start_ms, h + 1), c),
{
    let t = hour_time(start_ms, h as int);
    let stayed = stayed_in(args, series, start_ms, h);
    let all = ranked(args, series, candidates(args, series, stayed, t, series.len()), t);
    let fresh = entries(args, series, stayed, t);
    let after = positions_after(args, series, start_ms, h + 1);
    assert(after == stayed + fresh);
    lemma_ranked(args, series, stayed, t);
    assert(all.contains(c));
    let i = choose|i: int| 0 <= i < all.len() && all[i] == c;
    assert(fresh.len() == all.len());
    assert(fresh[i].asset == c);
    assert(after[stayed.len() + i].asset == c);
}

/// The strongest are entered first: what is entered in an hour comes in falling strength, and is
/// at least as strong as every coin that could be entered and was not.
pub proof fn the_strongest_are_entered_first(
    args: BacktestArgs,
    series: Seq<CoinSeries>,
    start_ms: int,
    h: nat,
    i: int,
    d: usize,
)
    requires
        series.len() <= usize::MAX,
        d < series.len(),
        ({
            let t = hour_time(start_ms, h as int);
            let stayed = stayed_in(args, series, start_ms, h);
            let fresh = entries(args, series, stayed, t);
            &&& 0 <= i < fresh.len()
            &&& enterable(args, series, stayed, t, d)
            &&& forall|k: int| 0 <= k <= i ==> (#[trigger] fresh[k]).asset != d
            &&& !snap_of(series, fresh[i].asset as int, t)->0.apr_now.nan()
            &&& !snap_of(series, d as int, t)->0.apr_now.nan()
        }),
    ensures
        ({
            let t = hour_time(start_ms, h as int);
            let stayed = stayed_in(args, series, start_ms, h);
            let c = entries(args, series, stayed, t)[i].asset;
            as_strong_as(
                args,
                snap_of(series, c as int, t)->0,
                snap_of(series, d as int, t)->0,
            )
        }),
{
    let t = hour_time(start_ms, h as int);
    let stayed = stayed_in(args, series, start_ms, h);
    let all = ranked(args, series, candidates(args, series, stayed, t, series.len()), t);
    let fresh = entries(args, series, stayed, t);
    lemma_ranked(args, series, stayed, t);
    assert(all.contains(d));
    let j = choose|j: int| 0 <= j < all.len() && all[j] == d;
    assert(fresh[i].asset == all[i]);
    if j <= i {
        assert(fresh[j].asset == all[j]);
        assert(false);
    }
    lemma_keys_tell_strength(
        args,
        snap_of(series, all[i] as int, t)->0,
        snap_of(series, d as int, t)->0,
    );
}

/// Funding at the rate at which a position is opened is received and not paid: a short position is
/// opened on a positive rate and a long one on a negative rate.
pub proof fn the_chosen_side_receives_funding(
    args: BacktestArgs,
    c: usize,
    snap: AssetSnap,
    t: int,
    rate: Binary64,
)
    requires
        snap.apr_now == apr_of(rate),
        snap.apr_now.above(0) || snap.apr_now.below(0),
        !opened(args, c, snap, t).size_usd.sign(),
    ensures
        ({
            let p = opened(args, c, snap, t);
            let received = match p.side {
                Side::Long => rate.negated_spec().times_spec(p.size_usd),
                Side::Short => rate.times_spec(p.size_usd),
            };
            &&& snap.apr_now.above(0) ==> p.side == Side::Short
            &&& snap.apr_now.below(0) ==> p.side == Side::Long
            &&& !received.below(0)
        }),
{
    let size = opened(args, c, snap, t).size_usd;
    let daily = rate.times_spec(Binary64::whole(24));
    let yearly = daily.times_spec(Binary64::whole(365));
    wholes_carry_their_sign(24);
    wholes_carry_their_sign(365);
    wholes_carry_their_sign(100);
    signs_multiply(rate, Binary64::whole(24));
    signs_multiply(daily, Binary64::whole(365));
    signs_multiply(yearly, Binary64::whole(100));
    signs_tell_the_side_of_zero(snap.apr_now);
    lemma_nan_spreads(rate, Binary64::whole(24));
    lemma_nan_spreads(daily, Binary64::whole(365));
    lemma_nan_spreads(yearly, Binary64::whole(100));
    signs_multiply(rate, size);
    signs_multiply(rate.negated_spec(), size);
    signs_tell_the_side_of_zero(rate.times_spec(size));
    signs_tell_the_side_of_zero(rate.negated_spec().times_spec(size));
    crate::arithmetic::small_wholes_are_exact(0);
}

proof fn lemma_nan_spreads(a: Binary64, b: Binary64)
    ensures
        a.nan() ==> a.times_spec(b).nan(),
{
    reveal(Binary64::times_spec);
}

} // verus!
