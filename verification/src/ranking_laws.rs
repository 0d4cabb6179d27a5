//! What comes first in the lists that are shown, and what is left out of them.

use crate::backtest::{BacktestArgs, CliExitStrategy, Trade};
use crate::binary64::{lemma_key_order, Binary64};
use crate::grouping::distinct;
use crate::metrics::{figures, Figure};
use crate::order::{
    best_is_the_last_maximum, descending, descending_is_a_stable_sort, double_keys,
    falling_order_falls, last_best, least_is_the_first_minimum, sorted_indices,
};
use crate::report::{bottom_five, by_net, top_five};
use crate::scan::{ranked_rows, rates_of, ScanRow};
use crate::signals::{assets_of, places_of, HourStats, Reading};
use crate::summary::{asset_rows, gross_of_rows, summary_of, unsorted_rows};
use crate::sweep::{
    all_args, args_again, averages, averages_only, bottom, first_of, lowest_rate, nets, ranking,
    the_best_of_a_strategy_comes_first, top, unsorted_averages, Axis, ComboResult,
};
use crate::watch::{
    action_key, action_keys, candidate_at, candidates_of, candidates_until, movers_of, scores_of,
    shown_actions, sizes_of, ActionView, ConfidenceTier,
};
use vstd::prelude::*;

verus! {

/// No member is without a value.
pub open spec fn all_numbers(xs: Seq<Binary64>) -> bool {
    forall|k: int| 0 <= k < xs.len() ==> !(#[trigger] xs[k]).nan()
}

/// The first `count` items by falling value: they fall, they are among the items, and none that
/// was left out has a larger value.
proof fn lemma_first<T>(items: Seq<T>, xs: Seq<Binary64>, count: nat, shown: Seq<T>)
    requires
        items.len() <= usize::MAX,
        xs.len() == items.len(),
        all_numbers(xs),
        count <= items.len(),
        shown.len() == count,
        forall|i: int|
            0 <= i < count ==> #[trigger] shown[i] == items[descending(
                double_keys(xs),
            )[i] as int],
    ensures
        sorted_indices(descending(double_keys(xs)), double_keys(xs), xs.len()),
        forall|i: int, j: int|
            0 <= i < j < count ==> xs[#[trigger] descending(double_keys(xs))[j] as int].at_most(
                xs[#[trigger] descending(double_keys(xs))[i] as int],
            ),
        forall|i: int| 0 <= i < count ==> items.contains(#[trigger] shown[i]),
        forall|k: int, i: int|
            0 <= k < items.len() && 0 <= i < count && !shown.contains(items[k])
                ==> (#[trigger] xs[k]).at_most(
                xs[#[trigger] descending(double_keys(xs))[i] as int],
            ),
        count == items.len() ==> forall|k: int|
            0 <= k < items.len() ==> shown.contains(#[trigger] items[k]),
{
    let keys = double_keys(xs);
    let order = descending(keys);
    descending_is_a_stable_sort(keys);
    assert forall|i: int, j: int| 0 <= i < j < count implies xs[#[trigger] order[j] as int].at_most(
        xs[#[trigger] order[i] as int],
    ) by {
        falling_order_falls(xs, i, j);
    }
    assert forall|i: int| 0 <= i < count implies items.contains(#[trigger] shown[i]) by {
        assert(order[i] < keys.len());
        assert(items[order[i] as int] == shown[i]);
    }
    assert forall|k: int, i: int|
        0 <= k < items.len() && 0 <= i < count && !shown.contains(items[k]) implies (
    #[trigger] xs[k]).at_most(xs[#[trigger] order[i] as int]) by {
        assert(order.contains(k as usize));
        let j = choose|j: int| 0 <= j < order.len() && order[j] == k as usize;
        if j < count {
            assert(shown[j] == items[k]);
        }
        falling_order_falls(xs, i, j);
    }
    if count == items.len() {
        assert forall|k: int| 0 <= k < items.len() implies shown.contains(#[trigger] items[k]) by {
            assert(order.contains(k as usize));
            let j = choose|j: int| 0 <= j < order.len() && order[j] == k as usize;
            assert(shown[j] == items[k]);
        }
    }
}

// The dashboard.

/// The movers are the assets with the largest rates either way, fifteen at most: the largest comes
/// first, and no asset that is left out has a larger one.
pub proof fn the_largest_rates_move_most(stats: Seq<HourStats>)
    requires
        stats.len() <= usize::MAX,
        forall|k: int| 0 <= k < stats.len() ==> !(#[trigger] stats[k]).apr_now.nan(),
    ensures
        movers_of(stats).len() == (if stats.len() <= 15 {
            stats.len()
        } else {
            15
        }),
        forall|i: int| 0 <= i < movers_of(stats).len() ==> stats.contains(
            #[trigger] movers_of(stats)[i],
        ),
        forall|i: int, j: int|
            0 <= i < j < movers_of(stats).len() ==> (
            #[trigger] movers_of(stats)[j]).apr_now.abs_spec().at_most(
                (#[trigger] movers_of(stats)[i]).apr_now.abs_spec(),
            ),
        forall|k: int, i: int|
            0 <= k < stats.len() && 0 <= i < movers_of(stats).len() && !movers_of(stats).contains(
                stats[k],
            ) ==> (#[trigger] stats[k]).apr_now.abs_spec().at_most(
                (#[trigger] movers_of(stats)[i]).apr_now.abs_spec(),
            ),
{
    let xs = sizes_of(stats);
    let shown = movers_of(stats);
    let order = descending(double_keys(xs));
    descending_is_a_stable_sort(double_keys(xs));
    assert forall|k: int| 0 <= k < xs.len() implies !(#[trigger] xs[k]).nan() by {
        assert(!stats[k].apr_now.nan());
    }
    lemma_first(stats, xs, shown.len(), shown);
    assert forall|i: int, j: int| 0 <= i < j < shown.len() implies (
    #[trigger] shown[j]).apr_now.abs_spec().at_most((#[trigger] shown[i]).apr_now.abs_spec()) by {
        assert(xs[order[j] as int].at_most(xs[order[i] as int]));
    }
    assert forall|k: int, i: int|
        0 <= k < stats.len() && 0 <= i < shown.len() && !shown.contains(stats[k]) implies (
    #[trigger] stats[k]).apr_now.abs_spec().at_most(
        (#[trigger] shown[i]).apr_now.abs_spec(),
    ) by {
        assert(xs[k].at_most(xs[order[i] as int]));
    }
}

/// An action comes no later than another one: it is a trap and the other is not, or it has at
/// least the score of the other.
pub open spec fn at_least_as_urgent(a: ActionView, b: ActionView) -> bool {
    if a.tier == ConfidenceTier::Trap {
        b.tier == ConfidenceTier::Trap ==> b.score.at_most(a.score)
    } else {
        b.tier != ConfidenceTier::Trap && b.score.at_most(a.score)
    }
}

proof fn lemma_urgency(a: ActionView, b: ActionView)
    requires
        !a.score.nan(),
        !b.score.nan(),
        action_key(a) >= action_key(b),
    ensures
        at_least_as_urgent(a, b),
{
    lemma_key_order(a.score, b.score);
    lemma_key_order(b.score, a.score);
}

/// The actions that are shown are the most urgent ones, ten at most: traps come first and then the
/// best scores, and no action that is left out is more urgent.
pub proof fn the_most_urgent_actions_are_shown(actions: Seq<ActionView>)
    requires
        actions.len() <= usize::MAX,
        forall|k: int| 0 <= k < actions.len() ==> !(#[trigger] actions[k]).score.nan(),
    ensures
        shown_actions(actions).len() == (if actions.len() <= 10 {
            actions.len()
        } else {
            10
        }),
        forall|i: int| 0 <= i < shown_actions(actions).len() ==> actions.contains(
            #[trigger] shown_actions(actions)[i],
        ),
        forall|i: int, j: int|
            0 <= i < j < shown_actions(actions).len() ==> at_least_as_urgent(
                #[trigger] shown_actions(actions)[i],
                #[trigger] shown_actions(actions)[j],
            ),
        forall|k: int, i: int|
            0 <= k < actions.len() && 0 <= i < shown_actions(actions).len() && !shown_actions(
                actions,
            ).contains(actions[k]) ==> at_least_as_urgent(
                #[trigger] shown_actions(actions)[i],
                #[trigger] actions[k],
            ),
{
    let keys = action_keys(actions);
    let order = descending(keys);
    let shown = shown_actions(actions);
    descending_is_a_stable_sort(keys);
    assert forall|i: int| 0 <= i < shown.len() implies actions.contains(#[trigger] shown[i]) by {
        assert(order[i] < keys.len());
        assert(actions[order[i] as int] == shown[i]);
    }
    assert forall|i: int, j: int| 0 <= i < j < shown.len() implies at_least_as_urgent(
        #[trigger] shown[i],
        #[trigger] shown[j],
    ) by {
        let a = order[i];
        let b = order[j];
        assert(a < keys.len() && b < keys.len());
        assert(keys[a as int] >= keys[b as int]);
        assert(shown[i] == actions[a as int] && shown[j] == actions[b as int]);
        lemma_urgency(shown[i], shown[j]);
    }
    assert forall|k: int, i: int|
        0 <= k < actions.len() && 0 <= i < shown.len() && !shown.contains(actions[k])
        implies at_least_as_urgent(#[trigger] shown[i], #[trigger] actions[k]) by {
        assert(order.contains(k as usize));
        let j = choose|j: int| 0 <= j < order.len() && order[j] == k as usize;
        if j < shown.len() {
            assert(shown[j] == actions[k]);
        }
        let a = order[i];
        let b = order[j];
        assert(a < keys.len());
        assert(keys[a as int] >= keys[b as int]);
        assert(shown[i] == actions[a as int]);
        lemma_urgency(shown[i], actions[k]);
    }
}

/// Every asset that is a candidate is among those found, and nothing else is.
proof fn lemma_candidates_found(rows: Seq<Reading>, n: nat)
    ensures
        forall|g: int|
            0 <= g < n && candidate_at(rows, #[trigger] places_of(rows, g)) is Some
                ==> candidates_until(rows, n).contains(candidate_at(rows, places_of(rows, g))->0),
        forall|i: int|
            0 <= i < candidates_until(rows, n).len() ==> exists|g: int|
                0 <= g < n && candidate_at(rows, #[trigger] places_of(rows, g)) == Some(
                    #[trigger] candidates_until(rows, n)[i],
                ),
    decreases n,
{
    if n > 0 {
        let m = (n - 1) as nat;
        lemma_candidates_found(rows, m);
        let before = candidates_until(rows, m);
        let now = candidates_until(rows, n);
        assert forall|g: int|
            0 <= g < n && candidate_at(rows, #[trigger] places_of(rows, g)) is Some implies
            now.contains(candidate_at(rows, places_of(rows, g))->0) by {
            let c = candidate_at(rows, places_of(rows, g))->0;
            if g < m {
                assert(before.contains(c));
                let k = choose|k: int| 0 <= k < before.len() && before[k] == c;
                assert(now[k] == c);
            } else {
                assert(now[now.len() - 1] == c);
            }
        }
        assert forall|i: int| 0 <= i < now.len() implies exists|g: int|
            0 <= g < n && candidate_at(rows, #[trigger] places_of(rows, g)) == Some(
                #[trigger] now[i],
            ) by {
            if i < before.len() {
                assert(now[i] == before[i]);
                let g = choose|g: int|
                    0 <= g < m && candidate_at(rows, #[trigger] places_of(rows, g)) == Some(
                        before[i],
                    );
                assert(candidate_at(rows, places_of(rows, g)) == Some(now[i]));
            } else {
                assert(candidate_at(rows, places_of(rows, m as int)) == Some(now[i]));
            }
        }
    }
}

/// The candidates are all assets that qualify, the best score first.
pub proof fn the_best_candidates_come_first(rows: Seq<Reading>)
    requires
        candidates_until(rows, distinct(assets_of(rows)).len()).len() <= usize::MAX,
        all_numbers(scores_of(candidates_until(rows, distinct(assets_of(rows)).len()))),
    ensures
        forall|i: int, j: int|
            0 <= i < j < candidates_of(rows).len() ==> (
            #[trigger] candidates_of(rows)[j]).score.at_most(
                (#[trigger] candidates_of(rows)[i]).score,
            ),
        forall|g: int|
            0 <= g < distinct(assets_of(rows)).len() && candidate_at(
                rows,
                #[trigger] places_of(rows, g),
            ) is Some ==> candidates_of(rows).contains(
                candidate_at(rows, places_of(rows, g))->0,
            ),
{
    let n = distinct(assets_of(rows)).len();
    let all = candidates_until(rows, n);
    let xs = scores_of(all);
    let shown = candidates_of(rows);
    let order = descending(double_keys(xs));
    descending_is_a_stable_sort(double_keys(xs));
    lemma_first(all, xs, all.len(), shown);
    assert forall|i: int, j: int| 0 <= i < j < shown.len() implies (
    #[trigger] shown[j]).score.at_most((#[trigger] shown[i]).score) by {
        assert(order[i] < all.len() && order[j] < all.len());
        assert(xs[order[j] as int].at_most(xs[order[i] as int]));
    }
    lemma_candidates_found(rows, n);
    assert forall|g: int|
        0 <= g < n && candidate_at(rows, #[trigger] places_of(rows, g)) is Some implies
        shown.contains(candidate_at(rows, places_of(rows, g))->0) by {
        let c = candidate_at(rows, places_of(rows, g))->0;
        let k = choose|k: int| 0 <= k < all.len() && all[k] == c;
        assert(shown.contains(all[k]));
    }
}

// The scan.

/// A scan shows all of its assets, the largest rate either way first.
pub proof fn the_largest_rates_are_scanned_first(rows: Seq<ScanRow>)
    requires
        rows.len() <= usize::MAX,
        forall|k: int| 0 <= k < rows.len() ==> !(#[trigger] rows[k]).funding_apr.nan(),
    ensures
        ranked_rows(rows).len() == rows.len(),
        forall|k: int| 0 <= k < rows.len() ==> ranked_rows(rows).contains(#[trigger] rows[k]),
        forall|i: int, j: int|
            0 <= i < j < ranked_rows(rows).len() ==> (
            #[trigger] ranked_rows(rows)[j]).funding_apr.abs_spec().at_most(
                (#[trigger] ranked_rows(rows)[i]).funding_apr.abs_spec(),
            ),
{
    let xs = rates_of(rows);
    let shown = ranked_rows(rows);
    let order = descending(double_keys(xs));
    descending_is_a_stable_sort(double_keys(xs));
    assert forall|k: int| 0 <= k < xs.len() implies !(#[trigger] xs[k]).nan() by {
        assert(!rows[k].funding_apr.nan());
    }
    lemma_first(rows, xs, rows.len(), shown);
    assert forall|i: int, j: int| 0 <= i < j < shown.len() implies (
    #[trigger] shown[j]).funding_apr.abs_spec().at_most(
        (#[trigger] shown[i]).funding_apr.abs_spec(),
    ) by {
        assert(order[i] < rows.len() && order[j] < rows.len());
        assert(xs[order[j] as int].at_most(xs[order[i] as int]));
    }
}

// The sweep.

/// All runs are ranked, the best result after costs first.
pub proof fn the_best_runs_come_first(results: Seq<ComboResult>)
    requires
        results.len() <= usize::MAX,
        forall|k: int| 0 <= k < results.len() ==> !(#[trigger] results[k]).net_pnl.nan(),
    ensures
        ranking(results).len() == results.len(),
        forall|k: int| 0 <= k < results.len() ==> ranking(results).contains(#[trigger] results[k]),
        forall|i: int| 0 <= i < results.len() ==> results.contains(#[trigger] ranking(results)[i]),
        forall|i: int, j: int|
            0 <= i < j < ranking(results).len() ==>
                (#[trigger] ranking(results)[j]).net_pnl.at_most(
                (#[trigger] ranking(results)[i]).net_pnl,
            ),
{
    let xs = nets(results);
    let shown = ranking(results);
    let order = descending(double_keys(xs));
    descending_is_a_stable_sort(double_keys(xs));
    assert forall|k: int| 0 <= k < xs.len() implies !(#[trigger] xs[k]).nan() by {
        assert(!results[k].net_pnl.nan());
    }
    lemma_first(results, xs, results.len(), shown);
    assert forall|i: int, j: int| 0 <= i < j < shown.len() implies (
    #[trigger] shown[j]).net_pnl.at_most((#[trigger] shown[i]).net_pnl) by {
        assert(order[i] < results.len() && order[j] < results.len());
        assert(xs[order[j] as int].at_most(xs[order[i] as int]));
    }
}

/// No run came to more than the first of the best ones or to less than the first of the worst
/// ones, and the best one of a strategy is not beaten by another run of it.
pub proof fn no_run_beats_the_best(results: Seq<ComboResult>, k: int, count: nat)
    requires
        0 <= k < results.len() <= usize::MAX,
        forall|k: int| 0 <= k < results.len() ==> !(#[trigger] results[k]).net_pnl.nan(),
        count > 0,
    ensures
        results[k].net_pnl.at_most(top(ranking(results), count)[0].net_pnl),
        bottom(ranking(results), count)[0].net_pnl.at_most(results[k].net_pnl),
        ({
            let sorted = ranking(results);
            let s = results[k].exit_strategy;
            let b = first_of(sorted, s);
            &&& b < sorted.len()
            &&& sorted[b].exit_strategy == s
            &&& results[k].net_pnl.at_most(sorted[b].net_pnl)
        }),
{
    the_best_runs_come_first(results);
    let sorted = ranking(results);
    let s = results[k].exit_strategy;
    assert(sorted.contains(results[k]));
    let i = choose|i: int| 0 <= i < sorted.len() && sorted[i] == results[k];
    the_best_of_a_strategy_comes_first(sorted, s);
    let b = first_of(sorted, s);
    if b > i {
        assert(sorted[i].exit_strategy != s);
    }
    if b < i {
        assert(sorted[i].net_pnl.at_most(sorted[b].net_pnl));
    }
    if 0 < i {
        assert(sorted[i].net_pnl.at_most(sorted[0].net_pnl));
    }
    let last = sorted.len() - 1;
    if i < last {
        assert(sorted[last].net_pnl.at_most(sorted[i].net_pnl));
    }
}

/// The parameters that are recommended are those of a run that no other beats, with the days and
/// the capital that were given.
pub proof fn the_best_parameters_are_those_of_the_best_run(
    results: Seq<ComboResult>,
    days: u32,
    capital: Binary64,
    k: int,
)
    requires
        0 <= k < results.len(),
        forall|k: int| 0 <= k < results.len() ==> !(#[trigger] results[k]).net_pnl.nan(),
    ensures
        ({
            let best = results[last_best(nets(results))];
            let again = args_again(best, days, capital);
            &&& results[k].net_pnl.at_most(best.net_pnl)
            &&& again.days == days
            &&& again.capital == capital
            &&& again.use_maker == best.use_maker
            &&& again.hold_hours == best.hold_hours
            &&& again.max_positions == best.max_positions
            &&& again.exit_strategy == best.exit_strategy
            &&& best.exit_strategy == CliExitStrategy::Hysteresis ==> again.hysteresis_entry_apr
                == best.hysteresis_entry_apr && again.hysteresis_exit_apr
                == best.hysteresis_exit_apr
            &&& best.exit_strategy != CliExitStrategy::Hysteresis ==> again.min_funding_apr == Some(
                best.min_funding_apr,
            )
        }),
{
    let xs = nets(results);
    assert forall|j: int| 0 <= j < xs.len() implies !(#[trigger] xs[j]).nan() by {
        assert(!results[j].net_pnl.nan());
    }
    best_is_the_last_maximum(xs);
    assert(xs[k].at_most(xs[last_best(xs)]));
}

/// Every run of a sweep is over the days and on the capital that were given.
pub proof fn every_run_is_on_the_given_capital(days: u32, capital: Binary64, i: int)
    requires
        0 <= i < 228,
    ensures
        all_args(days, capital)[i].days == days,
        all_args(days, capital)[i].capital == capital,
{
}

/// The lowest rate of the runs that gained, among those that entered in a way: none of them asked
/// for less, and one of them asked for it.
pub proof fn the_lowest_rate_is_the_least_that_gained(results: Seq<ComboResult>, use_maker: bool)
    requires
        forall|k: int| 0 <= k < results.len() ==> (#[trigger] results[k]).min_funding_apr.finite(),
    ensures
        !lowest_rate(results, use_maker).nan(),
        forall|k: int|
            0 <= k < results.len() && (#[trigger] results[k]).use_maker == use_maker
                && results[k].net_pnl.above(0) ==> lowest_rate(results, use_maker).at_most(
                results[k].min_funding_apr,
            ),
        lowest_rate(results, use_maker).finite() ==> exists|k: int|
            0 <= k < results.len() && (#[trigger] results[k]).use_maker == use_maker
                && results[k].net_pnl.above(0) && results[k].min_funding_apr == lowest_rate(
                results,
                use_maker,
            ),
    decreases results.len(),
{
    if results.len() > 0 {
        let rest = results.drop_last();
        let last = results.len() - 1;
        assert forall|k: int| 0 <= k < rest.len() implies (
        #[trigger] rest[k]).min_funding_apr.finite() by {
            assert(rest[k] == results[k]);
        }
        the_lowest_rate_is_the_least_that_gained(rest, use_maker);
        let before = lowest_rate(rest, use_maker);
        let now = lowest_rate(results, use_maker);
        assert(results.last() == results[last]);
        assert(now.at_most(before));
        assert forall|k: int|
            0 <= k < results.len() && (#[trigger] results[k]).use_maker == use_maker
                && results[k].net_pnl.above(0) implies now.at_most(results[k].min_funding_apr) by {
            if k < last {
                assert(rest[k] == results[k]);
                assert(before.at_most(results[k].min_funding_apr));
            }
        }
        if now.finite() {
            if results.last().use_maker == use_maker && results.last().net_pnl.above(0) && now
                == results.last().min_funding_apr {
                assert(results[last].min_funding_apr == now);
            } else {
                assert(now == before);
                let k = choose|k: int|
                    0 <= k < rest.len() && (#[trigger] rest[k]).use_maker == use_maker
                        && rest[k].net_pnl.above(0) && rest[k].min_funding_apr == before;
                assert(rest[k] == results[k]);
                assert(results[k].min_funding_apr == now);
            }
        }
    }
}

/// The means by an axis fall.
pub proof fn the_best_means_come_first(results: Seq<ComboResult>, axis: Axis)
    requires
        unsorted_averages(results, axis).len() <= usize::MAX,
        all_numbers(averages_only(unsorted_averages(results, axis))),
    ensures
        averages(results, axis).len() == unsorted_averages(results, axis).len(),
        forall|i: int, j: int|
            0 <= i < j < averages(results, axis).len() ==> (
            #[trigger] averages(results, axis)[j]).avg.at_most(
                (#[trigger] averages(results, axis)[i]).avg,
            ),
{
    let rows = unsorted_averages(results, axis);
    let xs = averages_only(rows);
    let shown = averages(results, axis);
    let order = descending(double_keys(xs));
    descending_is_a_stable_sort(double_keys(xs));
    lemma_first(rows, xs, rows.len(), shown);
    assert forall|i: int, j: int| 0 <= i < j < shown.len() implies (
    #[trigger] shown[j]).avg.at_most((#[trigger] shown[i]).avg) by {
        assert(order[i] < rows.len() && order[j] < rows.len());
        assert(xs[order[j] as int].at_most(xs[order[i] as int]));
    }
}

// The report.

/// The coins of a report are those with the best results before costs, twenty at most.
pub proof fn the_best_coins_come_first(trades: Seq<Trade>)
    requires
        unsorted_rows(trades).len() <= usize::MAX,
        all_numbers(gross_of_rows(unsorted_rows(trades))),
    ensures
        asset_rows(trades).len() == (if unsorted_rows(trades).len() <= 20 {
            unsorted_rows(trades).len()
        } else {
            20
        }),
        forall|i: int, j: int|
            0 <= i < j < asset_rows(trades).len() ==>
                (#[trigger] asset_rows(trades)[j]).gross.at_most(
                (#[trigger] asset_rows(trades)[i]).gross,
            ),
        forall|k: int, i: int|
            0 <= k < unsorted_rows(trades).len() && 0 <= i < asset_rows(trades).len()
                && !asset_rows(trades).contains(unsorted_rows(trades)[k]) ==> (
            #[trigger] unsorted_rows(trades)[k]).gross.at_most(
                (#[trigger] asset_rows(trades)[i]).gross,
            ),
{
    let rows = unsorted_rows(trades);
    let xs = gross_of_rows(rows);
    let shown = asset_rows(trades);
    let order = descending(double_keys(xs));
    descending_is_a_stable_sort(double_keys(xs));
    lemma_first(rows, xs, shown.len(), shown);
    assert forall|i: int, j: int| 0 <= i < j < shown.len() implies (
    #[trigger] shown[j]).gross.at_most((#[trigger] shown[i]).gross) by {
        assert(order[i] < rows.len() && order[j] < rows.len());
        assert(xs[order[j] as int].at_most(xs[order[i] as int]));
    }
    assert forall|k: int, i: int|
        0 <= k < rows.len() && 0 <= i < shown.len() && !shown.contains(rows[k]) implies (
    #[trigger] rows[k]).gross.at_most((#[trigger] shown[i]).gross) by {
        assert(order[i] < rows.len());
        assert(xs[k].at_most(xs[order[i] as int]));
    }
}

/// The best and the worst trade of a report are those before costs: none came to more or to less.
pub proof fn no_trade_beats_the_best(
    trades: Seq<Trade>,
    args: BacktestArgs,
    start_ms: int,
    end_ms: int,
    k: int,
)
    requires
        0 <= k < trades.len() <= usize::MAX,
        forall|k: int| 0 <= k < trades.len() ==> !(#[trigger] trades[k]).gross_funding_pnl.nan(),
    ensures
        ({
            let s = summary_of(trades, args, start_ms, end_ms);
            &&& s.best < trades.len()
            &&& s.worst < trades.len()
            &&& trades[k].gross_funding_pnl.at_most(trades[s.best as int].gross_funding_pnl)
            &&& trades[s.worst as int].gross_funding_pnl.at_most(trades[k].gross_funding_pnl)
        }),
{
    let xs = figures(trades, Figure::Gross);
    assert forall|j: int| 0 <= j < xs.len() implies !(#[trigger] xs[j]).nan() by {
        assert(!trades[j].gross_funding_pnl.nan());
    }
    best_is_the_last_maximum(xs);
    least_is_the_first_minimum(xs);
    let s = summary_of(trades, args, start_ms, end_ms);
    assert(xs[k] == trades[k].gross_funding_pnl);
    assert(xs[s.best as int] == trades[s.best as int].gross_funding_pnl);
    assert(xs[s.worst as int] == trades[s.worst as int].gross_funding_pnl);
}

/// The five trades at the top and the five at the bottom of a report are the best and the worst
/// after costs, in their order.
pub proof fn the_best_and_worst_trades_are_listed(trades: Seq<Trade>)
    requires
        trades.len() <= usize::MAX,
        forall|k: int| 0 <= k < trades.len() ==> !(#[trigger] trades[k]).net_pnl.nan(),
    ensures
        top_five(trades).len() == (if trades.len() <= 5 {
            trades.len()
        } else {
            5
        }),
        bottom_five(trades).len() == top_five(trades).len(),
        forall|i: int| 0 <= i < top_five(trades).len() ==> (#[trigger] top_five(trades)[i])
            < trades.len(),
        forall|i: int| 0 <= i < bottom_five(trades).len() ==> (#[trigger] bottom_five(trades)[i])
            < trades.len(),
        forall|i: int, j: int|
            0 <= i < j < top_five(trades).len() ==> trades[(
            #[trigger] top_five(trades)[j]) as int].net_pnl.at_most(
                trades[(#[trigger] top_five(trades)[i]) as int].net_pnl,
            ),
        forall|i: int, j: int|
            0 <= i < j < bottom_five(trades).len() ==> trades[(
            #[trigger] bottom_five(trades)[i]) as int].net_pnl.at_most(
                trades[(#[trigger] bottom_five(trades)[j]) as int].net_pnl,
            ),
        forall|k: usize, i: int|
            k < trades.len() && 0 <= i < top_five(trades).len() && !(#[trigger] top_five(
                trades,
            ).contains(k)) ==> trades[k as int].net_pnl.at_most(
                trades[(#[trigger] top_five(trades)[i]) as int].net_pnl,
            ),
        forall|k: usize, i: int|
            k < trades.len() && 0 <= i < bottom_five(trades).len() && !(#[trigger] bottom_five(
                trades,
            ).contains(k)) ==> trades[(
            #[trigger] bottom_five(trades)[i]) as int].net_pnl.at_most(trades[k as int].net_pnl),
{
    let xs = figures(trades, Figure::Net);
    assert forall|j: int| 0 <= j < xs.len() implies !(#[trigger] xs[j]).nan() by {
        assert(!trades[j].net_pnl.nan());
    }
    let order = by_net(trades);
    let n = trades.len() as int;
    let best = top_five(trades);
    let worst = bottom_five(trades);
    descending_is_a_stable_sort(double_keys(xs));
    assert forall|a: int, b: int| 0 <= a < b < n implies trades[(
    #[trigger] order[b]) as int].net_pnl.at_most(trades[(#[trigger] order[a]) as int].net_pnl) by {
        falling_order_falls(xs, a, b);
        assert(order[a] < n && order[b] < n);
    }
    assert forall|i: int| 0 <= i < worst.len() implies (#[trigger] worst[i]) < trades.len() by {
        assert(order[n - 1 - i] < n);
    }
    assert forall|i: int, j: int| 0 <= i < j < worst.len() implies trades[(
    #[trigger] worst[i]) as int].net_pnl.at_most(trades[(#[trigger] worst[j]) as int].net_pnl) by {
        assert(worst[i] == order[n - 1 - i] && worst[j] == order[n - 1 - j]);
    }
    assert forall|i: int, j: int| 0 <= i < j < best.len() implies trades[(
    #[trigger] best[j]) as int].net_pnl.at_most(trades[(#[trigger] best[i]) as int].net_pnl) by {
        assert(best[i] == order[i] && best[j] == order[j]);
    }
    assert forall|k: usize, i: int|
        k < trades.len() && 0 <= i < best.len() && !(#[trigger] best.contains(k)) implies
        trades[k as int].net_pnl.at_most(trades[(#[trigger] best[i]) as int].net_pnl) by {
        assert(order.contains(k));
        let j = choose|j: int| 0 <= j < order.len() && order[j] == k;
        if j < best.len() {
            assert(best[j] == k);
        }
        assert(best[i] == order[i]);
    }
    assert forall|k: usize, i: int|
        k < trades.len() && 0 <= i < worst.len() && !(#[trigger] worst.contains(k)) implies trades[(
    #[trigger] worst[i]) as int].net_pnl.at_most(trades[k as int].net_pnl) by {
        assert(order.contains(k));
        let j = choose|j: int| 0 <= j < order.len() && order[j] == k;
        if n - 1 - j < worst.len() {
            assert(worst[n - 1 - j] == k);
        }
        assert(worst[i] == order[n - 1 - i]);
    }
}

} // verus!
