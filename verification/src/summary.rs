//! The figures of a report on a backtest.

use crate::backtest::{break_even_apr_pct, break_even_spec};
use crate::backtest::{BacktestArgs, ExitReason, Trade};
use crate::binary64::{Binary64, INFINITE};
use crate::metrics::{
    count_gains, count_losses, curve, daily, daily_figures, daily_results, day, day_of, drawdown,
    figures, figures_by_day, gains, list_figures, losses, max_drawdown, per_year, return_on,
    return_pct, share, share_of, trace, yearly, DailyFigures, Figure,
};
use crate::order::{
    by_falling_value, descending, double_keys, first_least, index_of_best, index_of_least,
    last_best,
};
use crate::simulation::truncated;
use crate::stats::{mean, mean_of, sum, sum_of};
use crate::tier::Tier;
use vstd::prelude::*;

verus! {

/// The figures of a list of trades.
#[derive(Clone, Copy, Debug)]
pub struct Summary {
    pub total: usize,
    pub wins: usize,
    pub losses: usize,
    pub win_pct: Binary64,
    pub loss_pct: Binary64,
    /// Before costs.
    pub total_pnl: Binary64,
    pub avg_pnl: Binary64,
    /// The place of the best trade, the last of equals.
    pub best: usize,
    /// The place of the worst trade, the first of equals.
    pub worst: usize,
    pub pct_return: Binary64,
    pub annualized: Binary64,
    pub daily: DailyFigures,
    pub max_dd: Binary64,
    pub entry_costs: Binary64,
    pub exit_costs: Binary64,
    pub costs: Binary64,
    /// After costs.
    pub net: Binary64,
    pub cost_pct_of_gross: Binary64,
    /// Infinite where there was no profit before costs.
    pub cost_to_profit: Binary64,
    pub net_annualized: Binary64,
    pub break_even: Binary64,
    pub avg_entry_apr: Binary64,
}

/// `100 * costs / |gross|`, or zero where `|gross|` is not above a billionth.
pub open spec fn cost_share(costs: Binary64, gross: Binary64) -> Binary64 {
    if Binary64::ratio(1, 1_000_000_000).less(gross.abs_spec()) {
        Binary64::whole(100).times_spec(costs).over_spec(gross.abs_spec())
    } else {
        Binary64::whole(0)
    }
}

/// `100 * costs / gross`, or infinity where `gross` is not above a billionth.
pub open spec fn cost_ratio(costs: Binary64, gross: Binary64) -> Binary64 {
    if Binary64::ratio(1, 1_000_000_000).less(gross) {
        Binary64::whole(100).times_spec(costs).over_spec(gross)
    } else {
        Binary64 { bits: INFINITE }
    }
}

/// The day of a time in milliseconds.
pub open spec fn day_of_ms(ms: int) -> int {
    day_of(truncated(ms, 1000))
}

pub open spec fn summary_of(
    trades: Seq<Trade>,
    args: BacktestArgs,
    start_ms: int,
    end_ms: int,
) -> Summary {
    let gross = figures(trades, Figure::Gross);
    let total_pnl = sum_of(gross);
    let pct_return = return_on(total_pnl, args.capital);
    let entry_costs = sum_of(figures(trades, Figure::EntryCost));
    let exit_costs = sum_of(figures(trades, Figure::ExitCost));
    let costs = entry_costs.plus_spec(exit_costs);
    let net = sum_of(figures(trades, Figure::Net));
    Summary {
        total: trades.len() as usize,
        wins: gains(gross) as usize,
        losses: losses(gross) as usize,
        win_pct: share(gains(gross), trades.len()),
        loss_pct: share(losses(gross), trades.len()),
        total_pnl,
        avg_pnl: mean_of(gross),
        best: last_best(gross) as usize,
        worst: first_least(gross) as usize,
        pct_return,
        annualized: per_year(pct_return, args.days as nat),
        daily: daily_figures(daily(trades, day_of_ms(start_ms), day_of_ms(end_ms))),
        max_dd: drawdown(trades, Figure::Gross),
        entry_costs,
        exit_costs,
        costs,
        net,
        cost_pct_of_gross: cost_share(costs, total_pnl),
        cost_to_profit: cost_ratio(costs, total_pnl),
        net_annualized: per_year(return_on(net, args.capital), args.days as nat),
        break_even: break_even_spec(args),
        avg_entry_apr: mean_of(figures(trades, Figure::EntryRate)),
    }
}

/// The results before costs can be compared with each other: none is without a value, or there is
/// but one.
pub open spec fn comparable(trades: Seq<Trade>) -> bool {
    trades.len() <= 1 || forall|i: int|
        0 <= i < trades.len() ==> !(#[trigger] trades[i]).gross_funding_pnl.nan()
}

/// Whether the results before costs can be compared with each other.
pub fn are_comparable(trades: &Vec<Trade>) -> (r: bool)
    ensures
        r == comparable(trades@),
{
    let n: usize = trades.len();
    if n <= 1 {
        return true;
    }
    let mut i: usize = 0;
    while i < n
        invariant
            n == trades@.len(),
            n > 1,
            i <= n,
            forall|k: int| 0 <= k < i ==> !(#[trigger] trades@[k]).gross_funding_pnl.nan(),
        decreases n - i,
    {
        if trades[i].gross_funding_pnl.is_nan() {
            assert(trades@[i as int].gross_funding_pnl.nan());
            return false;
        }
        i = i + 1;
    }
    true
}

fn share_of_gross(costs: Binary64, gross: Binary64) -> (r: Binary64)
    ensures
        r == cost_share(costs, gross),
{
    if Binary64::from_ratio(1, 1_000_000_000).is_less(gross.abs()) {
        Binary64::from_whole(100).times(costs).over(gross.abs())
    } else {
        Binary64::from_whole(0)
    }
}

fn ratio_to_profit(costs: Binary64, gross: Binary64) -> (r: Binary64)
    ensures
        r == cost_ratio(costs, gross),
{
    if Binary64::from_ratio(1, 1_000_000_000).is_less(gross) {
        Binary64::from_whole(100).times(costs).over(gross)
    } else {
        Binary64 { bits: INFINITE }
    }
}

/// The figures of a list of trades.
pub fn summarize(trades: &Vec<Trade>, args: &BacktestArgs, start_ms: i64, end_ms: i64) -> (r:
    Summary)
    requires
        trades@.len() > 0,
        comparable(trades@),
    ensures
        r == summary_of(trades@, *args, start_ms as int, end_ms as int),
        r.best < trades@.len(),
        r.worst < trades@.len(),
{
    let gross = list_figures(trades, Figure::Gross);
    let total_pnl = sum(&gross);
    let pct_return = return_pct(total_pnl, args.capital);
    let wins: usize = count_gains(&gross);
    let lost: usize = count_losses(&gross);
    let entry_costs = sum(&list_figures(trades, Figure::EntryCost));
    let exit_costs = sum(&list_figures(trades, Figure::ExitCost));
    let costs = entry_costs.plus(exit_costs);
    let net = sum(&list_figures(trades, Figure::Net));
    let by_day = daily_results(trades, day(start_ms / 1000), day(end_ms / 1000));
    Summary {
        total: trades.len(),
        wins,
        losses: lost,
        win_pct: share_of(wins, trades.len()),
        loss_pct: share_of(lost, trades.len()),
        total_pnl,
        avg_pnl: mean(&gross),
        best: index_of_best(&gross),
        worst: index_of_least(&gross),
        pct_return,
        annualized: yearly(pct_return, args.days),
        daily: figures_by_day(&by_day),
        max_dd: max_drawdown(trades, Figure::Gross),
        entry_costs,
        exit_costs,
        costs,
        net,
        cost_pct_of_gross: share_of_gross(costs, total_pnl),
        cost_to_profit: ratio_to_profit(costs, total_pnl),
        net_annualized: yearly(return_pct(net, args.capital), args.days),
        break_even: break_even_apr_pct(args),
        avg_entry_apr: mean(&list_figures(trades, Figure::EntryRate)),
    }
}

// Groups of trades.

/// What a group of trades has in common.
#[derive(Clone, Copy, Debug, PartialEq, Eq, Structural)]
pub enum Common {
    Asset(usize),
    EntryTier(Tier),
    Reason(ExitReason),
}

pub open spec fn belongs(t: Trade, c: Common) -> bool {
    match c {
        Common::Asset(a) => t.asset == a,
        Common::EntryTier(tier) => t.entry_tier == tier,
        Common::Reason(reason) => t.exit_reason == reason,
    }
}

/// The trades of a group, in their order.
pub open spec fn group(trades: Seq<Trade>, c: Common) -> Seq<Trade>
    decreases trades.len(),
{
    if trades.len() == 0 {
        Seq::empty()
    } else if belongs(trades.last(), c) {
        group(trades.drop_last(), c).push(trades.last())
    } else {
        group(trades.drop_last(), c)
    }
}

/// The trades of a group, in their order.
pub fn group_of(trades: &Vec<Trade>, c: Common) -> (r: Vec<Trade>)
    ensures
        r@ == group(trades@, c),
{
    let mut out: Vec<Trade> = Vec::new();
    let n: usize = trades.len();
    let mut i: usize = 0;
    while i < n
        invariant
            n == trades@.len(),
            i <= n,
            out@ == group(trades@.take(i as int), c),
        decreases n - i,
    {
        assert(trades@.take(i + 1).drop_last() =~= trades@.take(i as int));
        let inside: bool = match c {
            Common::Asset(a) => trades[i].asset == a,
            Common::EntryTier(tier) => trades[i].entry_tier == tier,
            Common::Reason(reason) => trades[i].exit_reason == reason,
        };
        if inside {
            out.push(trades[i]);
        }
        i = i + 1;
    }
    assert(trades@.take(n as int) =~= trades@);
    out
}

/// The figures of a group of trades.
#[derive(Clone, Copy, Debug)]
pub struct GroupRow {
    pub common: Common,
    pub trades: usize,
    pub win_pct: Binary64,
    pub gross: Binary64,
    pub avg: Binary64,
    pub net: Binary64,
    pub net_win_pct: Binary64,
}

pub open spec fn row_of(trades: Seq<Trade>, c: Common) -> GroupRow {
    let members = group(trades, c);
    let gross = figures(members, Figure::Gross);
    let net = figures(members, Figure::Net);
    GroupRow {
        common: c,
        trades: members.len() as usize,
        win_pct: share(gains(gross), members.len()),
        gross: sum_of(gross),
        avg: mean_of(gross),
        net: sum_of(net),
        net_win_pct: share(gains(net), members.len()),
    }
}

/// The figures of a group of trades.
pub fn group_row(trades: &Vec<Trade>, c: Common) -> (r: GroupRow)
    ensures
        r == row_of(trades@, c),
{
    let members = group_of(trades, c);
    let gross = list_figures(&members, Figure::Gross);
    let net = list_figures(&members, Figure::Net);
    GroupRow {
        common: c,
        trades: members.len(),
        win_pct: share_of(count_gains(&gross), members.len()),
        gross: sum(&gross),
        avg: mean(&gross),
        net: sum(&net),
        net_win_pct: share_of(count_gains(&net), members.len()),
    }
}

/// The coins of the trades, each once, in the order in which they first occur.
pub open spec fn assets(trades: Seq<Trade>) -> Seq<usize>
    decreases trades.len(),
{
    if trades.len() == 0 {
        Seq::empty()
    } else {
        let before = assets(trades.drop_last());
        if before.contains(trades.last().asset) {
            before
        } else {
            before.push(trades.last().asset)
        }
    }
}

fn has_asset(known: &Vec<usize>, a: usize) -> (r: bool)
    ensures
        r == known@.contains(a),
{
    let n: usize = known.len();
    let mut i: usize = 0;
    while i < n
        invariant
            n == known@.len(),
            i <= n,
            forall|k: int| 0 <= k < i ==> #[trigger] known@[k] != a,
        decreases n - i,
    {
        if known[i] == a {
            assert(known@[i as int] == a);
            return true;
        }
        i = i + 1;
    }
    false
}

/// The coins of the trades, each once.
pub fn list_assets(trades: &Vec<Trade>) -> (r: Vec<usize>)
    ensures
        r@ == assets(trades@),
{
    let mut out: Vec<usize> = Vec::new();
    let n: usize = trades.len();
    let mut i: usize = 0;
    while i < n
        invariant
            n == trades@.len(),
            i <= n,
            out@ == assets(trades@.take(i as int)),
        decreases n - i,
    {
        assert(trades@.take(i + 1).drop_last() =~= trades@.take(i as int));
        if !has_asset(&out, trades[i].asset) {
            out.push(trades[i].asset);
        }
        i = i + 1;
    }
    assert(trades@.take(n as int) =~= trades@);
    out
}

/// The rows of the coins, as the coins first occur.
pub open spec fn unsorted_rows(trades: Seq<Trade>) -> Seq<GroupRow> {
    assets(trades).map_values(|a: usize| row_of(trades, Common::Asset(a)))
}

pub open spec fn gross_of_rows(rows: Seq<GroupRow>) -> Seq<Binary64> {
    rows.map_values(|r: GroupRow| r.gross)
}

pub open spec fn least(a: nat, b: nat) -> nat {
    if a <= b {
        a
    } else {
        b
    }
}

/// The rows of the coins with the best results before costs, twenty at most, the best first.
pub open spec fn asset_rows(trades: Seq<Trade>) -> Seq<GroupRow> {
    let rows = unsorted_rows(trades);
    let order = descending(double_keys(gross_of_rows(rows)));
    order.take(least(20, order.len()) as int).map_values(|i: usize| rows[i as int])
}

/// The rows of the coins with the best results before costs.
pub fn rows_by_asset(trades: &Vec<Trade>) -> (r: Vec<GroupRow>)
    ensures
        r@ == asset_rows(trades@),
{
    let coins = list_assets(trades);
    let mut rows: Vec<GroupRow> = Vec::new();
    let mut gross: Vec<Binary64> = Vec::new();
    let n: usize = coins.len();
    let mut i: usize = 0;
    while i < n
        invariant
            n == coins@.len(),
            i <= n,
            rows@ == coins@.take(i as int).map_values(
                |a: usize| row_of(trades@, Common::Asset(a)),
            ),
            gross@ == gross_of_rows(rows@),
        decreases n - i,
    {
        let row = group_row(trades, Common::Asset(coins[i]));
        let ghost before = rows@;
        gross.push(row.gross);
        rows.push(row);
        i = i + 1;
        assert(gross@ =~= gross_of_rows(rows@));
        assert(rows@ =~= coins@.take(i as int).map_values(
            |a: usize| row_of(trades@, Common::Asset(a)),
        ));
    }
    assert(coins@.take(n as int) =~= coins@);
    let order = by_falling_value(&gross);
    let count: usize = if order.len() < 20 {
        order.len()
    } else {
        20
    };
    let mut out: Vec<GroupRow> = Vec::new();
    let mut k: usize = 0;
    while k < count
        invariant
            k <= count <= order@.len(),
            order@.len() == rows@.len(),
            forall|j: int| 0 <= j < order@.len() ==> (#[trigger] order@[j]) < rows@.len(),
            out@ == order@.take(k as int).map_values(|j: usize| rows@[j as int]),
        decreases count - k,
    {
        out.push(rows[order[k]]);
        k = k + 1;
        assert(out@ =~= order@.take(k as int).map_values(|j: usize| rows@[j as int]));
    }
    out
}

/// The rows of the tiers that were traded, the strongest first.
pub open spec fn tier_rows(trades: Seq<Trade>) -> Seq<GroupRow> {
    tier_rows_until(trades, 4)
}

pub open spec fn tier_at(i: int) -> Tier {
    if i == 0 {
        Tier::Strong
    } else if i == 1 {
        Tier::Medium
    } else if i == 2 {
        Tier::Early
    } else {
        Tier::Weak
    }
}

/// The rows of the first `n` tiers.
pub open spec fn tier_rows_until(trades: Seq<Trade>, n: nat) -> Seq<GroupRow>
    decreases n,
{
    if n == 0 {
        Seq::empty()
    } else {
        let before = tier_rows_until(trades, (n - 1) as nat);
        let c = Common::EntryTier(tier_at(n - 1));
        if group(trades, c).len() > 0 {
            before.push(row_of(trades, c))
        } else {
            before
        }
    }
}

/// The rows of the tiers that were traded, the strongest first.
pub fn rows_by_tier(trades: &Vec<Trade>) -> (r: Vec<GroupRow>)
    ensures
        r@ == tier_rows(trades@),
{
    let mut out: Vec<GroupRow> = Vec::new();
    let mut i: usize = 0;
    while i < 4
        invariant
            i <= 4,
            out@ == tier_rows_until(trades@, i as nat),
        decreases 4 - i,
    {
        let tier = match i {
            0 => Tier::Strong,
            1 => Tier::Medium,
            2 => Tier::Early,
            _ => Tier::Weak,
        };
        assert(tier == tier_at(i as int));
        let members = group_of(trades, Common::EntryTier(tier));
        if members.len() > 0 {
            out.push(group_row(trades, Common::EntryTier(tier)));
        }
        i = i + 1;
    }
    out
}

/// How many trades ended for a reason, and their results before costs.
#[derive(Clone, Copy, Debug)]
pub struct ReasonRow {
    pub reason: ExitReason,
    pub trades: usize,
    pub gross: Binary64,
}

pub open spec fn reason_row(trades: Seq<Trade>, reason: ExitReason) -> ReasonRow {
    let members = group(trades, Common::Reason(reason));
    ReasonRow {
        reason,
        trades: members.len() as usize,
        gross: curve(figures(members, Figure::Gross)).running,
    }
}

pub open spec fn reason_at(i: int) -> ExitReason {
    if i == 0 {
        ExitReason::MaxHold
    } else if i == 1 {
        ExitReason::SignalLost
    } else {
        ExitReason::EndOfPeriod
    }
}

/// The rows of the first `n` reasons.
pub open spec fn reason_rows_until(trades: Seq<Trade>, n: nat) -> Seq<ReasonRow>
    decreases n,
{
    if n == 0 {
        Seq::empty()
    } else {
        let before = reason_rows_until(trades, (n - 1) as nat);
        if group(trades, Common::Reason(reason_at(n - 1))).len() > 0 {
            before.push(reason_row(trades, reason_at(n - 1)))
        } else {
            before
        }
    }
}

/// The rows of the reasons that occur.
pub fn rows_by_reason(trades: &Vec<Trade>) -> (r: Vec<ReasonRow>)
    ensures
        r@ == reason_rows_until(trades@, 3),
{
    let mut out: Vec<ReasonRow> = Vec::new();
    let mut i: usize = 0;
    while i < 3
        invariant
            i <= 3,
            out@ == reason_rows_until(trades@, i as nat),
        decreases 3 - i,
    {
        let reason = match i {
            0 => ExitReason::MaxHold,
            1 => ExitReason::SignalLost,
            _ => ExitReason::EndOfPeriod,
        };
        assert(reason == reason_at(i as int));
        let members = group_of(trades, Common::Reason(reason));
        if members.len() > 0 {
            let gross = trace(&list_figures(&members, Figure::Gross)).running;
            out.push(ReasonRow { reason, trades: members.len(), gross });
        }
        i = i + 1;
    }
    out
}

/// Every trade is in the group of one tier and in that of one reason.
pub proof fn groups_share_out_the_trades(trades: Seq<Trade>)
    ensures
        group(trades, Common::EntryTier(Tier::Strong)).len() + group(
            trades,
            Common::EntryTier(Tier::Medium),
        ).len() + group(trades, Common::EntryTier(Tier::Early)).len() + group(
            trades,
            Common::EntryTier(Tier::Weak),
        ).len() == trades.len(),
        group(trades, Common::Reason(ExitReason::MaxHold)).len() + group(
            trades,
            Common::Reason(ExitReason::SignalLost),
        ).len() + group(trades, Common::Reason(ExitReason::EndOfPeriod)).len() == trades.len(),
    decreases trades.len(),
{
    if trades.len() > 0 {
        groups_share_out_the_trades(trades.drop_last());
    }
}

} // verus!
