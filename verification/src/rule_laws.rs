//! What the rules on tiers, traps, alerts and days come to.

use crate::accuracy::{lemma_plus, moderate, near};
use crate::alerts::{tracked_tier, transition_spec, AlertKind};
use crate::arithmetic::UNIT_EXPONENT;
use crate::backtest::{
    admit_spec, cli_rank_spec, hourly_requirements, in_time_order, state_at_spec, still_admit_spec,
    until_splits_the_history, AssetSnap, BacktestArgs, CliExitStrategy, CliTier, FundingPoint,
    Trade,
};
use crate::binary64::{lemma_key_order, Binary64, INFINITE};
use crate::figure_laws::lemma_a_billionth_is_small;
use crate::grouping::members_of;
use crate::messages::side_of;
use crate::metrics::{day_total, figure_of, Figure};
use crate::monotony::{lemma_whole, lemma_wholes_in_order};
use crate::report::gains_tone;
use crate::signals::{
    assets_of, hour_stats, live_requirements, signal_spec, signals_until, trap_spec, HourStats,
    Reading, SignalData,
};
use crate::simulation::{first_hour, hour_count, hour_time, last_hour};
use crate::stats::{
    percent_of_mean, trend_newest_first, trend_newest_last, trend_part, TrendDir,
};
use crate::summary::{
    belongs, cost_ratio, cost_share, group, reason_at, reason_row, reason_rows_until, row_of,
    summary_of, tier_at, tier_rows_until, Common,
};
use crate::sweep::{combo_of, gainers_of, nets_with, runs_of, Axis, ComboResult};
use crate::tier::{classify_spec, rank_spec, standing, Requirements, Tier};
use crate::watch::{
    action_of, actions_note, actions_until, candidates_note, key_spec, movers_note,
    need_six_hours_text, receiving_side, ConfidenceTier, KeyAction,
};
use vstd::arithmetic::power2::*;
use vstd::prelude::*;

verus! {

// Tiers.

/// No tier is given for less than its price: above 70 points, a deviation below 30 percent and
/// enough readings for the strongest, and less of each for the others.
pub proof fn every_tier_has_its_price(
    score: Binary64,
    std_pct: Binary64,
    count: nat,
    need: Requirements,
)
    ensures
        ({
            let t = classify_spec(score, std_pct, count, need);
            &&& t == Some(Tier::Strong) ==> score.above(70) && std_pct.below(30) && count
                >= need.strong
            &&& t == Some(Tier::Medium) ==> score.above(50) && std_pct.below(50) && count
                >= need.medium
            &&& t == Some(Tier::Early) ==> score.above(40) && count >= need.early
            &&& t is Some ==> score.above(30) && !std_pct.above(70)
        }),
{
    lemma_wholes_in_order(30, 40);
    lemma_wholes_in_order(40, 50);
    lemma_wholes_in_order(50, 70);
}

/// Whoever pays the price of a tier gets it or a better one.
pub proof fn what_is_earned_is_given(
    score: Binary64,
    std_pct: Binary64,
    count: nat,
    need: Requirements,
)
    ensures
        ({
            let rank = standing(classify_spec(score, std_pct, count, need));
            &&& score.above(70) && std_pct.below(30) && count >= need.strong ==> rank == standing(
                Some(Tier::Strong),
            )
            &&& score.above(50) && std_pct.below(50) && count >= need.medium ==> rank >= standing(
                Some(Tier::Medium),
            )
            &&& score.above(40) && !std_pct.above(70) && count >= need.early ==> rank >= standing(
                Some(Tier::Early),
            )
            &&& score.above(30) && !std_pct.above(70) ==> rank >= standing(Some(Tier::Weak))
        }),
{
    lemma_wholes_in_order(30, 50);
    lemma_wholes_in_order(50, 70);
}

/// Any tier stands above none, and the four stand in their order.
pub proof fn tiers_stand_in_order(t: Tier)
    ensures
        standing(None) < standing(Some(t)),
        standing(Some(Tier::Weak)) < standing(Some(Tier::Early)),
        standing(Some(Tier::Early)) < standing(Some(Tier::Medium)),
        standing(Some(Tier::Medium)) < standing(Some(Tier::Strong)),
{
}

/// The least tier that is asked for by its name is the tier of that name.
pub proof fn the_least_tier_is_asked_for_by_name(t: Tier)
    ensures
        cli_rank_spec(CliTier::Strong) == rank_spec(Tier::Strong),
        rank_spec(t) >= cli_rank_spec(CliTier::Strong) <==> t == Tier::Strong,
        rank_spec(t) >= cli_rank_spec(CliTier::Medium) <==> t == Tier::Strong || t == Tier::Medium,
        rank_spec(t) >= cli_rank_spec(CliTier::Early) <==> t != Tier::Weak,
{
}

/// In the replay the strongest tier rests on 18 hourly readings at least, the next one on 8, the
/// third one on 3.
pub proof fn tiers_of_the_replay_rest_on_hours(
    points: Seq<FundingPoint>,
    t: int,
    lookback: int,
    volume_log: Binary64,
    snap: AssetSnap,
)
    requires
        state_at_spec(points, t, lookback, volume_log) == Some(snap),
        in_time_order(points),
        points.len() <= usize::MAX,
    ensures
        snap.natural_tier == Some(Tier::Strong) ==> snap.count >= 18 && snap.std_pct.below(30),
        snap.natural_tier == Some(Tier::Medium) ==> snap.count >= 8 && snap.std_pct.below(50),
        snap.natural_tier == Some(Tier::Early) ==> snap.count >= 3,
        snap.natural_tier is Some ==> !snap.std_pct.above(70),
{
    until_splits_the_history(points, t);
}

/// A signal of the strongest tier rests on 43 readings of six hours at least, one of the next tier
/// on 14, one of the third on 4. No signal is about a trap.
pub proof fn tiers_of_signals_rest_on_readings(
    s: HourStats,
    count_6h: nat,
    cadence: int,
    logs: Seq<Binary64>,
    d: SignalData,
)
    requires
        signal_spec(s, count_6h, cadence, logs) == Some(d),
    ensures
        d.tier == Tier::Strong ==> count_6h >= 43 && d.score.above(70) && s.std_pct.below(30),
        d.tier == Tier::Medium ==> count_6h >= 14 && d.score.above(50) && s.std_pct.below(50),
        d.tier == Tier::Early ==> count_6h >= 4 && d.score.above(40),
        d.score.above(30),
        !s.std_pct.above(70),
        !trap_spec(s.apr_now, s.volume_24h),
{
    lemma_wholes_in_order(30, 40);
    lemma_wholes_in_order(40, 50);
    lemma_wholes_in_order(50, 70);
}

// Traps.

/// A trap pays more than 500 percent either way on less than a million dollars a day.
pub proof fn traps_pay_much_on_little(apr: Binary64, volume: Binary64)
    ensures
        trap_spec(apr, volume) <==> (apr.above(500) || apr.negated_spec().above(500))
            && volume.below(1_000_000),
        trap_spec(apr, volume) == trap_spec(apr.negated_spec(), volume),
{
    lemma_whole(500);
    lemma_key_order(apr, apr.abs_spec());
}

/// A trap is shown as one, with no points. Anything else is shown if it makes a signal, with the
/// points and the tier of the signal.
pub proof fn actions_are_traps_or_signals(
    s: HourStats,
    asset: Seq<char>,
    count_6h: nat,
    logs: Seq<Binary64>,
    cadence: int,
)
    ensures
        ({
            let a = action_of(s, asset, count_6h, logs);
            let d = signal_spec(s, count_6h, cadence, logs);
            &&& trap_spec(s.apr_now, s.volume_24h) ==> a is Some && a->0.tier
                == ConfidenceTier::Trap && a->0.score.units() == 0
            &&& !trap_spec(s.apr_now, s.volume_24h) ==> (a is Some <==> d is Some)
            &&& d is Some ==> a is Some && a->0.score == d->0.score && (a->0.tier
                == ConfidenceTier::Strong <==> d->0.tier == Tier::Strong) && (a->0.tier
                == ConfidenceTier::Medium <==> d->0.tier == Tier::Medium) && (a->0.tier
                == ConfidenceTier::Early <==> d->0.tier == Tier::Early) && (a->0.tier
                == ConfidenceTier::Weak <==> d->0.tier == Tier::Weak)
            &&& a is Some ==> a->0.asset == asset
        }),
{
    lemma_whole(0);
    assert(0 * pow2(UNIT_EXPONENT as nat) == 0) by (nonlinear_arith);
}

// Notes.

/// A table without rows has a note, and no other one has.
pub proof fn empty_tables_have_a_note(n: nat, stats: nat, span: int, other: int)
    ensures
        movers_note(n, span) is Some <==> n == 0,
        actions_note(n, stats, span) is Some <==> n == 0,
        candidates_note(n, span) is Some <==> n == 0,
        n == 0 && span < 21_600 ==> candidates_note(n, span) == Some(need_six_hours_text(span)),
        span >= 21_600 && other >= 21_600 ==> candidates_note(n, span) == candidates_note(n, other),
        n > 0 || stats > 0 ==> actions_note(n, stats, span) == actions_note(n, stats, other),
{
}

// Changes of tier.

/// A rise between tracked tiers is told as one, a fall as one, and a fall to the weak tier as a
/// lost signal. A weak asset counts as an unknown one, which is told from the medium tier on.
pub proof fn changes_of_tier_are_told(prev: Tier, now: Tier)
    ensures
        transition_spec(Some(prev), prev) is None,
        tracked_tier(prev) && tracked_tier(now) ==> {
            &&& transition_spec(Some(prev), now) == Some(AlertKind::TierUp) <==> rank_spec(now)
                > rank_spec(prev)
            &&& transition_spec(Some(prev), now) == Some(AlertKind::TierDown) <==> rank_spec(now)
                < rank_spec(prev)
        },
        transition_spec(Some(prev), now) == Some(AlertKind::SignalLost) <==> tracked_tier(prev)
            && !tracked_tier(now),
        transition_spec(Some(Tier::Weak), now) == transition_spec(None, now),
        transition_spec(None, now) == Some(AlertKind::NewSignal) <==> rank_spec(now) >= rank_spec(
            Tier::Medium,
        ),
        transition_spec(None, now) is Some ==> transition_spec(None, now) == Some(
            AlertKind::NewSignal,
        ),
{
}

// Costs and gains.

/// Costs are shared by a loss as by a gain of its size, there is no share of nothing, and where
/// there is no profit no profit pays for them.
pub proof fn costs_are_shared_by_size(costs: Binary64, gross: Binary64)
    ensures
        cost_share(costs, gross) == cost_share(costs, gross.negated_spec()),
        gross.units() == 0 ==> cost_share(costs, gross).units() == 0,
        !gross.above(0) ==> cost_ratio(costs, gross) == (Binary64 { bits: INFINITE }),
{
    lemma_a_billionth_is_small();
    lemma_whole(0);
    lemma_key_order(gross, gross.abs_spec());
    assert(0 * pow2(UNIT_EXPONENT as nat) == 0) by (nonlinear_arith);
}

/// What is not lost is toned as a gain.
pub proof fn losses_are_not_toned_as_gains(x: Binary64)
    requires
        !x.nan(),
    ensures
        gains_tone(x) <==> x.units() >= 0,
{
    lemma_whole(0);
    assert(0 * pow2(UNIT_EXPONENT as nat) == 0) by (nonlinear_arith);
}

// Groups.

/// The trades of a group are those of the first part that belong to it, and after them those of
/// the second part.
pub proof fn groups_keep_the_order(a: Seq<Trade>, b: Seq<Trade>, c: Common)
    ensures
        group(a + b, c) == group(a, c) + group(b, c),
        forall|i: int| 0 <= i < group(a, c).len() ==> belongs(#[trigger] group(a, c)[i], c),
    decreases a.len() + b.len(),
{
    if b.len() == 0 {
        assert(a + b =~= a);
        assert(group(a, c) + group(b, c) =~= group(a, c));
        if a.len() > 0 {
            groups_keep_the_order(a.drop_last(), b, c);
        }
    } else {
        groups_keep_the_order(a, b.drop_last(), c);
        assert((a + b).drop_last() =~= a + b.drop_last());
        assert((a + b).last() == b.last());
        assert(group(a + b, c) =~= group(a, c) + group(b, c));
    }
}

/// The results of the runs with one value of a parameter keep the order of the runs.
pub proof fn averaged_runs_keep_the_order(
    a: Seq<ComboResult>,
    b: Seq<ComboResult>,
    axis: Axis,
    k: u64,
)
    ensures
        nets_with(a + b, axis, k) == nets_with(a, axis, k) + nets_with(b, axis, k),
    decreases b.len(),
{
    if b.len() == 0 {
        assert(a + b =~= a);
        assert(nets_with(a, axis, k) + nets_with(b, axis, k) =~= nets_with(a, axis, k));
    } else {
        averaged_runs_keep_the_order(a, b.drop_last(), axis, k);
        assert((a + b).drop_last() =~= a + b.drop_last());
        assert((a + b).last() == b.last());
        assert(nets_with(a + b, axis, k) =~= nets_with(a, axis, k) + nets_with(b, axis, k));
    }
}

// Days.

/// The result of a trade counts on the day on which it ends, and on no other.
pub proof fn results_count_on_the_day_of_the_exit(trades: Seq<Trade>, t: Trade, day: int)
    requires
        t.exit_time_sec >= 0,
    ensures
        day_total(Seq::<Trade>::empty(), day).units() == 0,
        day * 86_400 <= t.exit_time_sec < (day + 1) * 86_400 ==> day_total(trades.push(t), day)
            == day_total(trades, day).plus_spec(t.gross_funding_pnl),
        !(day * 86_400 <= t.exit_time_sec < (day + 1) * 86_400) ==> day_total(trades.push(t), day)
            == day_total(trades, day),
{
    lemma_whole(0);
    assert(0 * pow2(UNIT_EXPONENT as nat) == 0) by (nonlinear_arith);
    assert(trades.push(t).drop_last() =~= trades);
}

// What suffices.

/// In the replay 18 hourly readings are enough for the strongest tier, 8 for the next one and 3
/// for the third one.
pub proof fn readings_that_suffice_in_the_replay(score: Binary64, std_pct: Binary64, count: nat)
    ensures
        ({
            let t = classify_spec(score, std_pct, count, hourly_requirements());
            &&& score.above(70) && std_pct.below(30) && count >= 18 ==> t == Some(Tier::Strong)
            &&& score.above(50) && std_pct.below(50) && count >= 8 ==> standing(t) >= standing(
                Some(Tier::Medium),
            )
            &&& score.above(40) && !std_pct.above(70) && count >= 3 ==> standing(t) >= standing(
                Some(Tier::Early),
            )
        }),
{
    what_is_earned_is_given(score, std_pct, count, hourly_requirements());
}

/// Of live readings 43 are enough for the strongest tier, 14 for the next one and 4 for the third
/// one.
pub proof fn readings_that_suffice_live(score: Binary64, std_pct: Binary64, count: nat)
    ensures
        ({
            let t = classify_spec(score, std_pct, count, live_requirements());
            &&& score.above(70) && std_pct.below(30) && count >= 43 ==> t == Some(Tier::Strong)
            &&& score.above(50) && std_pct.below(50) && count >= 14 ==> standing(t) >= standing(
                Some(Tier::Medium),
            )
            &&& score.above(40) && !std_pct.above(70) && count >= 4 ==> standing(t) >= standing(
                Some(Tier::Early),
            )
        }),
{
    what_is_earned_is_given(score, std_pct, count, live_requirements());
}

/// Where the tier decides, an asset may be entered if its tier is the one that is asked for or a
/// better one.
pub proof fn the_asked_tier_may_be_entered(args: BacktestArgs, snap: AssetSnap)
    requires
        args.exit_strategy != CliExitStrategy::Hysteresis,
        args.min_funding_apr is None,
    ensures
        ({
            let strong = snap.natural_tier == Some(Tier::Strong);
            let medium = snap.natural_tier == Some(Tier::Medium);
            let early = snap.natural_tier == Some(Tier::Early);
            &&& args.min_tier == CliTier::Strong ==> (admit_spec(args, snap) <==> strong)
            &&& args.min_tier == CliTier::Medium ==> (admit_spec(args, snap) <==> strong || medium)
            &&& args.min_tier == CliTier::Early ==> (admit_spec(args, snap) <==> strong || medium
                || early)
        }),
{
}

/// Where the rate decides, an asset may be entered if its rate either way is the one that is asked
/// for or a greater one and it deviates by less than 70 percent. With two rates, the first one is
/// for entering and the second one for staying.
pub proof fn the_asked_rate_may_be_entered(args: BacktestArgs, snap: AssetSnap)
    requires
        !snap.apr_now.nan(),
    ensures
        ({
            let rate = snap.apr_now.abs_spec();
            let steady = snap.std_pct.below(70);
            let first = args.hysteresis_entry_apr;
            let second = args.hysteresis_exit_apr;
            &&& args.exit_strategy == CliExitStrategy::Hysteresis && !first.nan() ==> (admit_spec(
                args,
                snap,
            ) <==> !rate.less(first) && steady)
            &&& args.exit_strategy == CliExitStrategy::Hysteresis && !second.nan() ==> (
            still_admit_spec(args, Some(snap)) <==> !rate.less(second))
            &&& args.exit_strategy != CliExitStrategy::Hysteresis ==> (args.min_funding_apr matches
                Some(asked) ==> !asked.nan() ==> (admit_spec(args, snap) <==> !rate.less(asked)
                && steady))
            &&& args.exit_strategy == CliExitStrategy::Std ==> still_admit_spec(args, Some(snap))
                == admit_spec(args, snap)
            &&& args.exit_strategy == CliExitStrategy::MaxHoldOnly ==> still_admit_spec(
                args,
                Some(snap),
            ) && still_admit_spec(args, None)
            &&& args.exit_strategy != CliExitStrategy::MaxHoldOnly ==> !still_admit_spec(args, None)
        }),
{
}

// Next to nothing.

/// A result of a billionth or less, either way, has no share of the costs, and no profit of a
/// billionth or less pays for them.
pub proof fn a_billionth_is_next_to_nothing(costs: Binary64, gross: Binary64)
    ensures
        gross.abs_spec().at_most(Binary64::ratio(1, 1_000_000_000)) ==> cost_share(
            costs,
            gross,
        ).units() == 0,
        gross.at_most(Binary64::ratio(1, 1_000_000_000)) ==> cost_ratio(costs, gross) == (
        Binary64 { bits: INFINITE }),
        gross.abs_spec().at_most(Binary64::ratio(1, 1_000_000_000)) ==> percent_of_mean(
            gross,
            costs,
        ) == percent_of_mean(Binary64::whole(0), costs),
{
    lemma_a_billionth_is_small();
    lemma_whole(0);
    assert(0 * pow2(UNIT_EXPONENT as nat) == 0) by (nonlinear_arith);
    lemma_key_order(Binary64::whole(0), Binary64::whole(0).abs_spec());
}

// Sides.

/// Who is short receives a positive rate, who is long a negative one.
pub proof fn the_receiving_side_is_told(apr: Binary64)
    requires
        !apr.nan(),
    ensures
        receiving_side(apr) == side_of(apr),
        apr.above(0) ==> receiving_side(apr) == "SHORT"@,
        apr.below(0) ==> receiving_side(apr) == "LONG"@,
{
    lemma_whole(0);
}

// Figures.

/// The costs of a report are those of the entries and those of the exits.
pub proof fn costs_are_those_of_both_orders(
    trades: Seq<Trade>,
    args: BacktestArgs,
    start_ms: int,
    end_ms: int,
)
    requires
        moderate(summary_of(trades, args, start_ms, end_ms).entry_costs, 500),
        moderate(summary_of(trades, args, start_ms, end_ms).exit_costs, 500),
    ensures
        ({
            let s = summary_of(trades, args, start_ms, end_ms);
            near(s.costs.units(), s.entry_costs.units() + s.exit_costs.units(), 1, 1)
        }),
{
    let s = summary_of(trades, args, start_ms, end_ms);
    lemma_plus(s.entry_costs, s.exit_costs, 500);
}

/// The costs of a trade are those of its entry and of its exit, and its rate counts by its size.
pub proof fn figures_of_a_trade(t: Trade, turned: Trade)
    requires
        turned.funding_apr_at_entry == t.funding_apr_at_entry.negated_spec(),
    ensures
        figure_of(t, Figure::EntryRate) == figure_of(turned, Figure::EntryRate),
        figure_of(t, Figure::EntryRate).units() >= 0,
        !t.funding_apr_at_entry.sign() ==> figure_of(t, Figure::EntryRate)
            == t.funding_apr_at_entry,
        moderate(t.entry_cost, 500) && moderate(t.exit_cost, 500) ==> near(
            figure_of(t, Figure::BothCosts).units(),
            t.entry_cost.units() + t.exit_cost.units(),
            1,
            1,
        ),
{
    if moderate(t.entry_cost, 500) && moderate(t.exit_cost, 500) {
        lemma_plus(t.entry_cost, t.exit_cost, 500);
    }
}

/// The runs of an exit strategy that gained are counted, each once.
pub proof fn runs_that_gained_are_counted(
    results: Seq<ComboResult>,
    r: ComboResult,
    s: CliExitStrategy,
)
    ensures
        gainers_of(Seq::<ComboResult>::empty(), s) == 0,
        r.exit_strategy == s && r.net_pnl.above(0) ==> gainers_of(results.push(r), s)
            == gainers_of(results, s) + 1,
        r.exit_strategy != s || !r.net_pnl.above(0) ==> gainers_of(results.push(r), s)
            == gainers_of(results, s),
{
    assert(results.push(r).drop_last() =~= results);
}

/// Every row of the tiers has trades, and every tier with a trade has a row.
pub proof fn tiers_with_trades_have_a_row(trades: Seq<Trade>, n: nat)
    requires
        trades.len() <= usize::MAX,
    ensures
        forall|i: int|
            0 <= i < tier_rows_until(trades, n).len() ==> (#[trigger] tier_rows_until(
                trades,
                n,
            )[i]).trades >= 1,
        forall|k: int|
            0 <= k < n && group(trades, Common::EntryTier(#[trigger] tier_at(k))).len() > 0
                ==> tier_rows_until(trades, n).contains(
                row_of(trades, Common::EntryTier(tier_at(k))),
            ),
    decreases n,
{
    if n > 0 {
        let m = (n - 1) as nat;
        tiers_with_trades_have_a_row(trades, m);
        let before = tier_rows_until(trades, m);
        let now = tier_rows_until(trades, n);
        let c = Common::EntryTier(tier_at(m as int));
        lemma_groups_are_parts(trades, c);
        assert forall|k: int|
            0 <= k < n && group(trades, Common::EntryTier(#[trigger] tier_at(k))).len()
                > 0 implies now.contains(row_of(trades, Common::EntryTier(tier_at(k)))) by {
            let row = row_of(trades, Common::EntryTier(tier_at(k)));
            if k < m {
                let j = choose|j: int| 0 <= j < before.len() && before[j] == row;
                assert(now[j] == row);
            } else {
                assert(now[now.len() - 1] == row);
            }
        }
    }
}

/// Every row of the reasons has trades, and every reason with a trade has a row.
pub proof fn reasons_with_trades_have_a_row(trades: Seq<Trade>, n: nat)
    requires
        trades.len() <= usize::MAX,
    ensures
        forall|i: int|
            0 <= i < reason_rows_until(trades, n).len() ==> (#[trigger] reason_rows_until(
                trades,
                n,
            )[i]).trades >= 1,
        forall|k: int|
            0 <= k < n && group(trades, Common::Reason(#[trigger] reason_at(k))).len() > 0
                ==> reason_rows_until(trades, n).contains(reason_row(trades, reason_at(k))),
    decreases n,
{
    if n > 0 {
        let m = (n - 1) as nat;
        reasons_with_trades_have_a_row(trades, m);
        let before = reason_rows_until(trades, m);
        let now = reason_rows_until(trades, n);
        let c = Common::Reason(reason_at(m as int));
        lemma_groups_are_parts(trades, c);
        assert forall|k: int|
            0 <= k < n && group(trades, Common::Reason(#[trigger] reason_at(k))).len()
                > 0 implies now.contains(reason_row(trades, reason_at(k))) by {
            let row = reason_row(trades, reason_at(k));
            if k < m {
                let j = choose|j: int| 0 <= j < before.len() && before[j] == row;
                assert(now[j] == row);
            } else {
                assert(now[now.len() - 1] == row);
            }
        }
    }
}

/// A group has no more trades than there are.
proof fn lemma_groups_are_parts(trades: Seq<Trade>, c: Common)
    ensures
        group(trades, c).len() <= trades.len(),
    decreases trades.len(),
{
    if trades.len() > 0 {
        lemma_groups_are_parts(trades.drop_last(), c);
    }
}

// Trends.

/// Three readings that rise one after the other are a rise, three that fall a fall, anything else
/// is neither, and the order in which the readings are listed does not matter.
pub proof fn three_readings_make_a_trend(xs: Seq<Binary64>)
    ensures
        trend_newest_first(xs) == trend_newest_last(xs.reverse()),
        xs.len() < 3 ==> trend_newest_first(xs) == TrendDir::Flat,
        xs.len() >= 3 ==> {
            &&& trend_newest_first(xs) == TrendDir::Up <==> xs[2].less(xs[1]) && xs[1].less(xs[0])
            &&& trend_newest_first(xs) == TrendDir::Down <==> xs[0].less(xs[1]) && xs[1].less(xs[2])
        },
{
}

// Hours.

/// Every full hour from the beginning of the replay to its end is replayed.
pub proof fn every_full_hour_is_replayed(start_ms: int, end_ms: int, t: int)
    requires
        start_ms >= 0,
        t % 3_600_000 == 0,
        start_ms + 86_400_000 - 3_600_000 < t <= end_ms,
    ensures
        exists|h: int|
            0 <= h < hour_count(start_ms, end_ms) && #[trigger] hour_time(start_ms, h) == t,
{
    reveal(first_hour);
    reveal(last_hour);
    let k = (start_ms + 86_400_000) / 3_600_000;
    let j = t / 3_600_000;
    let last = end_ms / 3_600_000;
    assert(first_hour(start_ms) == k * 3_600_000);
    assert(last_hour(end_ms) == last * 3_600_000);
    assert(t == j * 3_600_000);
    assert(k <= j <= last);
    assert((last * 3_600_000 - k * 3_600_000) / 3_600_000 == last - k);
    assert(hour_time(start_ms, j - k) == t);
}

// Keys.

/// A pressed `q` quits, and so does a pressed `c` with the control key; `r` asks for new data; a
/// key that is let go does nothing of this.
pub proof fn keys_do_what_the_controls_say(key: Option<char>, control: bool)
    ensures
        key_spec(true, Some('q'), control) == KeyAction::Quit,
        key_spec(true, Some('c'), control) == KeyAction::Quit <==> control,
        key_spec(true, Some('r'), control) == KeyAction::Refresh,
        key_spec(false, key, control) == KeyAction::Skip,
        key_spec(true, key, control) == KeyAction::Quit ==> key == Some('q') || key == Some('c'),
        key_spec(true, key, control) == KeyAction::Refresh ==> key == Some('r'),
{
}

// Lists.

/// Every asset whose statistics make a signal is among the signals, with the number of its own
/// recent readings.
pub proof fn every_signal_is_listed(
    rows: Seq<Reading>,
    recent: Seq<Seq<char>>,
    cadence: int,
    logs: Seq<Binary64>,
    n: nat,
    k: int,
)
    requires
        0 <= k < n <= hour_stats(rows).len(),
    ensures
        ({
            let s = hour_stats(rows)[k];
            let asset = rows[s.newest as int].asset@;
            signal_spec(s, members_of(recent, asset).len(), cadence, logs) matches Some(d)
                ==> signals_until(rows, recent, cadence, logs, n).contains((asset, d))
        }),
    decreases n,
{
    let m = (n - 1) as nat;
    let s = hour_stats(rows)[k];
    let asset = rows[s.newest as int].asset@;
    let before = signals_until(rows, recent, cadence, logs, m);
    let now = signals_until(rows, recent, cadence, logs, n);
    if let Some(d) = signal_spec(s, members_of(recent, asset).len(), cadence, logs) {
        if k < m {
            every_signal_is_listed(rows, recent, cadence, logs, m, k);
            let j = choose|j: int| 0 <= j < before.len() && before[j] == (asset, d);
            assert(now[j] == (asset, d));
        } else {
            assert(now[now.len() - 1] == (asset, d));
        }
    }
}

/// Every asset whose statistics call for an action is among the actions, with the number of its
/// own recent readings.
pub proof fn every_action_is_listed(
    rows: Seq<Reading>,
    recent: Seq<Reading>,
    logs: Seq<Binary64>,
    n: nat,
    k: int,
)
    requires
        0 <= k < n <= hour_stats(rows).len(),
    ensures
        ({
            let s = hour_stats(rows)[k];
            let asset = rows[s.newest as int].asset@;
            action_of(s, asset, members_of(assets_of(recent), asset).len(), logs) matches Some(a)
                ==> actions_until(rows, recent, logs, n).contains(a)
        }),
    decreases n,
{
    let m = (n - 1) as nat;
    let s = hour_stats(rows)[k];
    let asset = rows[s.newest as int].asset@;
    let before = actions_until(rows, recent, logs, m);
    let now = actions_until(rows, recent, logs, n);
    if let Some(a) = action_of(s, asset, members_of(assets_of(recent), asset).len(), logs) {
        if k < m {
            every_action_is_listed(rows, recent, logs, m, k);
            let j = choose|j: int| 0 <= j < before.len() && before[j] == a;
            assert(now[j] == a);
        } else {
            assert(now[now.len() - 1] == a);
        }
    }
}

/// The tiers of a report are listed from the strongest to the weakest, and its reasons are three
/// different ones.
pub proof fn tiers_are_listed_from_the_strongest(i: int)
    ensures
        tier_at(0) == Tier::Strong,
        0 <= i < 3 ==> rank_spec(tier_at(i + 1)) == rank_spec(tier_at(i)) - 1,
        reason_at(0) != reason_at(1),
        reason_at(1) != reason_at(2),
        reason_at(0) != reason_at(2),
{
}

/// The runs of an exit strategy are counted, each once.
pub proof fn runs_of_a_strategy_are_counted(
    results: Seq<ComboResult>,
    r: ComboResult,
    s: CliExitStrategy,
)
    ensures
        runs_of(Seq::<ComboResult>::empty(), s) == 0,
        runs_of(results.push(r), r.exit_strategy) == runs_of(results, r.exit_strategy) + 1,
        r.exit_strategy != s ==> runs_of(results.push(r), s) == runs_of(results, s),
{
    assert(results.push(r).drop_last() =~= results);
}

/// A trend in the direction of the mean rate adds ten points, and any other nothing.
pub proof fn a_trend_adds_ten_points_or_none(avg: Binary64, dir: TrendDir)
    requires
        !avg.nan(),
    ensures
        avg.above(0) && dir == TrendDir::Up ==> trend_part(avg, dir) == Binary64::whole(10),
        avg.below(0) && dir == TrendDir::Down ==> trend_part(avg, dir) == Binary64::whole(10),
        dir == TrendDir::Flat || avg.units() == 0 ==> trend_part(avg, dir).units() == 0,
        avg.above(0) && dir == TrendDir::Down ==> trend_part(avg, dir).units() == 0,
        avg.below(0) && dir == TrendDir::Up ==> trend_part(avg, dir).units() == 0,
{
    lemma_whole(0);
    assert(0 * pow2(UNIT_EXPONENT as nat) == 0) by (nonlinear_arith);
}

/// A run over no days has no yearly return.
pub proof fn no_days_have_no_yearly_return(trades: Seq<Trade>, args: BacktestArgs)
    requires
        args.days == 0,
    ensures
        combo_of(trades, args).annualized_pct.units() == 0,
{
    lemma_whole(0);
    assert(0 * pow2(UNIT_EXPONENT as nat) == 0) by (nonlinear_arith);
}

} // verus!
