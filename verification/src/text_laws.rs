//! What the texts tell: each figure that goes into a text stands in it.

use crate::alerts::EventView;
use crate::backtest::{
    entry_cost_spec, exit_reason_text, exit_strategy_text, min_tier_text, side_text, taker_cost,
    BacktestArgs, CliExitStrategy, Trade,
};
use crate::binary64::Binary64;
use crate::dates::{or_else_text, utc_text};
use crate::decimal::{decimal, fixed, signed_decimal};
use crate::history::{
    download_end_text, download_progress_text, download_start_text, retry_note_text,
};
use crate::messages::{
    alert_note_text, daily_yield, kind_text, lost_message_text, mute_note_text, side_of,
    signal_message_text, size_text, startup_note_text, tick_note_text, tier_in, tier_note,
    TierCounts,
};
use crate::report::{
    adjusted_text, asset_cells_text, cost_text, date_of, entry_kind, head_text, minute_of,
    ratio_note, results_text, tier_cells_text, trade_text,
};
use crate::scan::{
    collect_start_text, mismatch_text, persistent_cells_text, persistent_head_text, saved_text,
    scan_cells_text, std_of, LengthMismatch, PersistentRow, ScanRow,
};
use crate::signals::{HourStats, SignalData};
use crate::simulation::truncated;
use crate::stats::percent_of_mean;
use crate::summary::{GroupRow, Summary};
use crate::sweep::{
    average_text, best_text, bool_text, combo_cells_text, entry_cell, entry_rule, exit_cell,
    left, maker_text, profitable_text, progress_text, right, sub_progress_text, sweep_head_text,
    threshold_found_text, AverageRow, ComboResult,
};
use crate::tier::label_spec;
use crate::util::{bytes_text, usd_text};
use crate::watch;
use crate::watch::{
    action_cells_text, action_text, arrow_of, candidate_cells_text, confidence_label,
    controls_text, coverage_text, hours_of, interval_text, mover_cells_text, need_data_text,
    need_hour_text, need_six_hours_text, reading_text, receiving_side, score_cell, size_range,
    stale_text, trap_risk_text, ActionView, CandidateRow,
};
use vstd::prelude::*;

verus! {

/// A text stands in a line, from the place `k` on.
pub open spec fn stands_at(line: Seq<char>, x: Seq<char>, k: int) -> bool {
    &&& 0 <= k
    &&& k + x.len() <= line.len()
    &&& line.subrange(k, k + x.len()) =~= x
}

/// A line tells a text: it stands in it.
pub open spec fn tells(line: Seq<char>, x: Seq<char>) -> bool {
    exists|k: int| stands_at(line, x, k)
}

/// A text tells itself.
proof fn lemma_all(x: Seq<char>)
    ensures
        tells(x, x),
{
    assert(stands_at(x, x, 0));
}

/// A line with something behind it tells what it told, and what stands behind it.
proof fn longer(l: Seq<char>, r: Seq<char>) -> (all: Seq<char>)
    ensures
        all == l + r,
        tells(all, r),
        forall|x: Seq<char>| tells(l, x) ==> #[trigger] tells(all, x),
{
    assert(stands_at(l + r, r, l.len() as int));
    assert forall|x: Seq<char>| tells(l, x) implies #[trigger] tells(l + r, x) by {
        let k = choose|k: int| stands_at(l, x, k);
        assert((l + r).subrange(k, k + x.len()) =~= l.subrange(k, k + x.len()));
        assert(stands_at(l + r, x, k));
    }
    l + r
}

/// The head of a report tells the period, the capital and the limits of the backtest.
pub proof fn a_report_tells_its_parameters(args: BacktestArgs, start_ms: int, end_ms: int)
    ensures
        tells(head_text(args, start_ms, end_ms)[2], date_of(start_ms)),
        tells(head_text(args, start_ms, end_ms)[2], date_of(end_ms)),
        tells(head_text(args, start_ms, end_ms)[2], decimal(args.days as nat)),
        tells(head_text(args, start_ms, end_ms)[3], fixed(args.capital, 0, false)),
        tells(head_text(args, start_ms, end_ms)[4], decimal(args.max_positions as nat)),
        tells(head_text(args, start_ms, end_ms)[5], min_tier_text(args.min_tier)),
        tells(head_text(args, start_ms, end_ms)[6], decimal(args.hold_hours as nat)),
{
    let l = "Period: "@;
    let l = longer(l, date_of(start_ms));
    let l = longer(l, " to "@);
    let l = longer(l, date_of(end_ms));
    let l = longer(l, " ("@);
    let l = longer(l, decimal(args.days as nat));
    longer(l, " days)"@);
    let l = "Initial capital: $"@;
    longer(l, fixed(args.capital, 0, false));
    let l = "Max concurrent positions: "@;
    longer(l, decimal(args.max_positions as nat));
    let l = "Min tier: "@;
    longer(l, min_tier_text(args.min_tier));
    let l = "Hold hours: "@;
    longer(l, decimal(args.hold_hours as nat));
}

/// A report tells the counts, the shares, the results, the best and the worst trade, and the daily
/// figures.
pub proof fn a_report_tells_its_results(
    s: Summary,
    best: Trade,
    best_name: Seq<char>,
    worst: Trade,
    worst_name: Seq<char>,
    days: nat,
)
    ensures
        tells(
            results_text(s, best, best_name, worst, worst_name, days)[2],
            decimal(s.total as nat),
        ),
        tells(results_text(s, best, best_name, worst, worst_name, days)[3], decimal(s.wins as nat)),
        tells(
            results_text(s, best, best_name, worst, worst_name, days)[3],
            fixed(s.win_pct, 0, false),
        ),
        tells(
            results_text(s, best, best_name, worst, worst_name, days)[4],
            decimal(s.losses as nat),
        ),
        tells(
            results_text(s, best, best_name, worst, worst_name, days)[4],
            fixed(s.loss_pct, 0, false),
        ),
        tells(
            results_text(s, best, best_name, worst, worst_name, days)[5],
            fixed(s.avg_pnl, 2, true),
        ),
        tells(
            results_text(s, best, best_name, worst, worst_name, days)[6],
            fixed(best.gross_funding_pnl, 2, true),
        ),
        tells(results_text(s, best, best_name, worst, worst_name, days)[6], best_name),
        tells(
            results_text(s, best, best_name, worst, worst_name, days)[6],
            decimal(best.hold_hours as nat),
        ),
        tells(results_text(s, best, best_name, worst, worst_name, days)[6], side_text(best.side)),
        tells(
            results_text(s, best, best_name, worst, worst_name, days)[7],
            fixed(worst.gross_funding_pnl, 2, true),
        ),
        tells(results_text(s, best, best_name, worst, worst_name, days)[7], worst_name),
        tells(
            results_text(s, best, best_name, worst, worst_name, days)[7],
            decimal(worst.hold_hours as nat),
        ),
        tells(
            results_text(s, best, best_name, worst, worst_name, days)[7],
            exit_reason_text(worst.exit_reason),
        ),
        tells(
            results_text(s, best, best_name, worst, worst_name, days)[9],
            fixed(s.total_pnl, 2, true),
        ),
        tells(
            results_text(s, best, best_name, worst, worst_name, days)[9],
            fixed(s.pct_return, 2, true),
        ),
        tells(results_text(s, best, best_name, worst, worst_name, days)[9], decimal(days as nat)),
        tells(
            results_text(s, best, best_name, worst, worst_name, days)[9],
            fixed(s.annualized, 0, true),
        ),
        tells(
            results_text(s, best, best_name, worst, worst_name, days)[10],
            fixed(s.daily.sharpe, 2, false),
        ),
        tells(
            results_text(s, best, best_name, worst, worst_name, days)[10],
            fixed(s.daily.mean, 2, false),
        ),
        tells(
            results_text(s, best, best_name, worst, worst_name, days)[10],
            fixed(s.daily.std, 2, false),
        ),
        tells(
            results_text(s, best, best_name, worst, worst_name, days)[11],
            fixed(s.max_dd.negated_spec(), 2, true),
        ),
{
    let l = "Total trades: "@;
    longer(l, decimal(s.total as nat));
    let l = "Winning: "@;
    let l = longer(l, decimal(s.wins as nat));
    let l = longer(l, " ("@);
    let l = longer(l, fixed(s.win_pct, 0, false));
    longer(l, "%)"@);
    let l = "Losing:  "@;
    let l = longer(l, decimal(s.losses as nat));
    let l = longer(l, " ("@);
    let l = longer(l, fixed(s.loss_pct, 0, false));
    longer(l, "%)"@);
    let l = "Avg P&L per trade (gross): $"@;
    longer(l, fixed(s.avg_pnl, 2, true));
    let l = "Best trade (gross):  $"@;
    let l = longer(l, fixed(best.gross_funding_pnl, 2, true));
    let l = longer(l, " ("@);
    let l = longer(l, best_name);
    let l = longer(l, ", "@);
    let l = longer(l, decimal(best.hold_hours as nat));
    let l = longer(l, "h hold, side="@);
    let l = longer(l, side_text(best.side));
    longer(l, ")"@);
    let l = "Worst trade (gross): $"@;
    let l = longer(l, fixed(worst.gross_funding_pnl, 2, true));
    let l = longer(l, " ("@);
    let l = longer(l, worst_name);
    let l = longer(l, ", "@);
    let l = longer(l, decimal(worst.hold_hours as nat));
    let l = longer(l, "h hold, exit_reason="@);
    let l = longer(l, exit_reason_text(worst.exit_reason));
    longer(l, ")"@);
    let l = "Total P&L (gross): $"@;
    let l = longer(l, fixed(s.total_pnl, 2, true));
    let l = longer(l, " ("@);
    let l = longer(l, fixed(s.pct_return, 2, true));
    let l = longer(l, "% over "@);
    let l = longer(l, decimal(days as nat));
    let l = longer(l, " days, ~"@);
    let l = longer(l, fixed(s.annualized, 0, true));
    longer(l, "% annualized)"@);
    let l = "Sharpe-ish ratio (daily): "@;
    let l = longer(l, fixed(s.daily.sharpe, 2, false));
    let l = longer(l, "  (mean_daily=$"@);
    let l = longer(l, fixed(s.daily.mean, 2, false));
    let l = longer(l, ", std_daily=$"@);
    let l = longer(l, fixed(s.daily.std, 2, false));
    longer(l, ")"@);
    let l = "Max drawdown (gross): $"@;
    let l = longer(l, fixed(s.max_dd.negated_spec(), 2, true));
    longer(l, " (peak to trough)"@);
}

/// A report tells what an order costs, what all orders cost, and the results before and after.
pub proof fn a_report_tells_its_costs(s: Summary, args: BacktestArgs)
    ensures
        tells(cost_text(s, args)[2], fixed(entry_cost_spec(args), 1, false)),
        tells(cost_text(s, args)[2], entry_kind(args.use_maker)),
        tells(cost_text(s, args)[3], fixed(taker_cost(args), 1, false)),
        tells(cost_text(s, args)[4], fixed(s.entry_costs, 2, false)),
        tells(cost_text(s, args)[5], fixed(s.exit_costs, 2, false)),
        tells(cost_text(s, args)[6], fixed(s.costs, 2, false)),
        tells(cost_text(s, args)[6], fixed(s.cost_pct_of_gross, 1, false)),
        tells(cost_text(s, args)[7], fixed(s.total_pnl, 2, true)),
        tells(cost_text(s, args)[8], fixed(s.net, 2, true)),
        tells(cost_text(s, args)[9], ratio_note(s.cost_to_profit)),
{
    let l = "Entry cost per trade: "@;
    let l = longer(l, fixed(entry_cost_spec(args), 1, false));
    let l = longer(l, " bps ("@);
    let l = longer(l, entry_kind(args.use_maker));
    longer(l, ")"@);
    let l = "Exit cost per trade:  "@;
    let l = longer(l, fixed(taker_cost(args), 1, false));
    longer(l, " bps (taker = spread/2 + taker_fee + slippage)"@);
    let l = "Total entry costs: $"@;
    longer(l, fixed(s.entry_costs, 2, false));
    let l = "Total exit costs:  $"@;
    longer(l, fixed(s.exit_costs, 2, false));
    let l = "Total costs: $"@;
    let l = longer(l, fixed(s.costs, 2, false));
    let l = longer(l, " ("@);
    let l = longer(l, fixed(s.cost_pct_of_gross, 1, false));
    longer(l, "% of gross P&L)"@);
    let l = "Gross P&L (before costs): $"@;
    longer(l, fixed(s.total_pnl, 2, true));
    let l = "Net P&L (after costs):    $"@;
    longer(l, fixed(s.net, 2, true));
    let l = "Cost-to-profit ratio: "@;
    longer(l, ratio_note(s.cost_to_profit));
}

/// A report tells the yearly returns, the rate that pays for the costs and the mean rate of the
/// entries.
pub proof fn a_report_tells_its_returns(s: Summary, hold_hours: nat)
    ensures
        tells(adjusted_text(s, hold_hours)[2], fixed(s.annualized, 1, true)),
        tells(adjusted_text(s, hold_hours)[3], fixed(s.net_annualized, 1, true)),
        tells(adjusted_text(s, hold_hours)[4], fixed(s.break_even, 0, false)),
        tells(adjusted_text(s, hold_hours)[4], decimal(hold_hours as nat)),
        tells(adjusted_text(s, hold_hours)[5], fixed(s.avg_entry_apr, 0, false)),
{
    let l = "Annualized return (gross): "@;
    let l = longer(l, fixed(s.annualized, 1, true));
    longer(l, "%"@);
    let l = "Annualized return (net of costs): "@;
    let l = longer(l, fixed(s.net_annualized, 1, true));
    longer(l, "%"@);
    let l = "Break-even funding APR: "@;
    let l = longer(l, fixed(s.break_even, 0, false));
    let l = longer(l, "% (минимум |APR| при котором funding покрывает costs за "@);
    let l = longer(l, decimal(hold_hours as nat));
    longer(l, "h hold)"@);
    let l = "Average |funding APR| at entry: "@;
    let l = longer(l, fixed(s.avg_entry_apr, 0, false));
    longer(l, "%"@);
}

/// A trade is told with its rank, its coin, its side, its times, its size, its rates, its accounts
/// and its reason.
pub proof fn a_trade_is_told_in_full(rank: nat, t: Trade, name: Seq<char>)
    ensures
        tells(trade_text(rank, t, name)[0], decimal(rank)),
        tells(trade_text(rank, t, name)[0], name),
        tells(trade_text(rank, t, name)[0], side_text(t.side)),
        tells(trade_text(rank, t, name)[0], minute_of(t.entry_time_sec as int)),
        tells(trade_text(rank, t, name)[0], minute_of(t.exit_time_sec as int)),
        tells(trade_text(rank, t, name)[0], decimal(t.hold_hours as nat)),
        tells(trade_text(rank, t, name)[0], fixed(t.size_usd, 0, false)),
        tells(trade_text(rank, t, name)[1], fixed(t.funding_apr_at_entry, 0, true)),
        tells(trade_text(rank, t, name)[1], fixed(t.funding_apr_at_exit, 0, true)),
        tells(trade_text(rank, t, name)[2], fixed(t.gross_funding_pnl, 3, true)),
        tells(trade_text(rank, t, name)[2], fixed(t.entry_cost.plus_spec(t.exit_cost), 3, false)),
        tells(trade_text(rank, t, name)[2], fixed(t.entry_cost, 3, false)),
        tells(trade_text(rank, t, name)[2], fixed(t.exit_cost, 3, false)),
        tells(trade_text(rank, t, name)[2], fixed(t.net_pnl, 3, true)),
        tells(trade_text(rank, t, name)[3], exit_reason_text(t.exit_reason)),
        tells(trade_text(rank, t, name)[3], label_spec(t.entry_tier)),
{
    lemma_all(decimal(rank));
    let l = decimal(rank);
    let l = longer(l, ". "@);
    let l = longer(l, name);
    let l = longer(l, " "@);
    let l = longer(l, side_text(t.side));
    let l = longer(l, " entry "@);
    let l = longer(l, minute_of(t.entry_time_sec as int));
    let l = longer(l, " exit "@);
    let l = longer(l, minute_of(t.exit_time_sec as int));
    let l = longer(l, " ("@);
    let l = longer(l, decimal(t.hold_hours as nat));
    let l = longer(l, "h, size $"@);
    let l = longer(l, fixed(t.size_usd, 0, false));
    longer(l, ")"@);
    let l = "   Entry funding: "@;
    let l = longer(l, fixed(t.funding_apr_at_entry, 0, true));
    let l = longer(l, "% APR, Exit: "@);
    let l = longer(l, fixed(t.funding_apr_at_exit, 0, true));
    longer(l, "% APR"@);
    let l = "   Gross funding: $"@;
    let l = longer(l, fixed(t.gross_funding_pnl, 3, true));
    let l = longer(l, ", Costs: -$"@);
    let l = longer(l, fixed(t.entry_cost.plus_spec(t.exit_cost), 3, false));
    let l = longer(l, " (entry "@);
    let l = longer(l, fixed(t.entry_cost, 3, false));
    let l = longer(l, "+exit "@);
    let l = longer(l, fixed(t.exit_cost, 3, false));
    let l = longer(l, "), Net: $"@);
    longer(l, fixed(t.net_pnl, 3, true));
    let l = "   Reason exit: "@;
    let l = longer(l, exit_reason_text(t.exit_reason));
    let l = longer(l, ", entry tier: "@);
    longer(l, label_spec(t.entry_tier));
}

/// The row of a coin or a tier tells its name, its trades, its shares and its results.
pub proof fn a_group_of_trades_is_told_in_full(row: GroupRow, name: Seq<char>)
    ensures
        tells(asset_cells_text(row, name)[0], name),
        tells(asset_cells_text(row, name)[1], decimal(row.trades as nat)),
        tells(asset_cells_text(row, name)[2], fixed(row.win_pct, 0, false)),
        tells(asset_cells_text(row, name)[3], fixed(row.gross, 2, true)),
        tells(asset_cells_text(row, name)[4], fixed(row.avg, 2, true)),
        tells(asset_cells_text(row, name)[5], fixed(row.net, 2, true)),
        tells(tier_cells_text(row, name)[0], name),
        tells(tier_cells_text(row, name)[1], decimal(row.trades as nat)),
        tells(tier_cells_text(row, name)[2], fixed(row.win_pct, 0, false)),
        tells(tier_cells_text(row, name)[3], fixed(row.gross, 2, true)),
        tells(tier_cells_text(row, name)[4], fixed(row.avg, 2, true)),
        tells(tier_cells_text(row, name)[5], fixed(row.net, 2, true)),
        tells(tier_cells_text(row, name)[6], fixed(row.net_win_pct, 0, false)),
{
    lemma_all(name);
    lemma_all(decimal(row.trades as nat));
    lemma_all(fixed(row.win_pct, 0, false));
    let l = fixed(row.win_pct, 0, false);
    longer(l, "%"@);
    let l = "$"@;
    longer(l, fixed(row.gross, 2, true));
    let l = "$"@;
    longer(l, fixed(row.avg, 2, true));
    let l = "$"@;
    longer(l, fixed(row.net, 2, true));
    lemma_all(name);
    lemma_all(decimal(row.trades as nat));
    lemma_all(fixed(row.win_pct, 0, false));
    let l = fixed(row.win_pct, 0, false);
    longer(l, "%"@);
    let l = "$"@;
    longer(l, fixed(row.gross, 2, true));
    let l = "$"@;
    longer(l, fixed(row.avg, 2, true));
    let l = "$"@;
    longer(l, fixed(row.net, 2, true));
    lemma_all(fixed(row.net_win_pct, 0, false));
    let l = fixed(row.net_win_pct, 0, false);
    longer(l, "%"@);
}

/// The row of an asset of a scan tells its rank, its name, its price, its rates, its interest, its
/// volume and its leverage.
pub proof fn an_asset_of_a_scan_is_told_in_full(rank: nat, row: ScanRow, name: Seq<char>)
    ensures
        tells(scan_cells_text(rank, row, name)[0], decimal(rank)),
        tells(scan_cells_text(rank, row, name)[1], name),
        tells(scan_cells_text(rank, row, name)[2], fixed(row.mark_px, 4, false)),
        tells(
            scan_cells_text(rank, row, name)[3],
            fixed(row.funding_hourly.times_spec(Binary64::whole(100)), 5, false),
        ),
        tells(scan_cells_text(rank, row, name)[4], fixed(row.funding_apr, 2, true)),
        tells(scan_cells_text(rank, row, name)[5], usd_text(row.open_interest_usd)),
        tells(scan_cells_text(rank, row, name)[6], usd_text(row.day_volume_usd)),
        tells(scan_cells_text(rank, row, name)[7], decimal(row.max_leverage as nat)),
{
    lemma_all(decimal(rank));
    lemma_all(name);
    lemma_all(fixed(row.mark_px, 4, false));
    lemma_all(fixed(row.funding_hourly.times_spec(Binary64::whole(100)), 5, false));
    lemma_all(fixed(row.funding_apr, 2, true));
    lemma_all(usd_text(row.open_interest_usd));
    lemma_all(usd_text(row.day_volume_usd));
    lemma_all(decimal(row.max_leverage as nat));
    let l = decimal(row.max_leverage as nat);
    longer(l, "x"@);
}

/// The row of an asset whose rate lasts tells its rank, its name, its rates, its readings, its
/// price, its volume and its leverage.
pub proof fn a_lasting_asset_is_told_in_full(
    rank: nat,
    row: PersistentRow,
    name: Seq<char>,
    last_seen: Seq<char>,
)
    ensures
        tells(persistent_cells_text(rank, row, name, last_seen)[0], decimal(rank)),
        tells(persistent_cells_text(rank, row, name, last_seen)[1], name),
        tells(persistent_cells_text(rank, row, name, last_seen)[2], fixed(row.avg_apr, 2, true)),
        tells(persistent_cells_text(rank, row, name, last_seen)[3], fixed(std_of(row), 2, false)),
        tells(persistent_cells_text(rank, row, name, last_seen)[4], fixed(row.last_apr, 2, true)),
        tells(
            persistent_cells_text(rank, row, name, last_seen)[5],
            signed_decimal(row.snap_count as int),
        ),
        tells(persistent_cells_text(rank, row, name, last_seen)[6], last_seen),
        tells(
            persistent_cells_text(rank, row, name, last_seen)[7],
            fixed(row.mark_price, 4, false),
        ),
        tells(persistent_cells_text(rank, row, name, last_seen)[8], usd_text(row.day_volume_usd)),
        tells(
            persistent_cells_text(rank, row, name, last_seen)[9],
            decimal(row.max_leverage as nat),
        ),
{
    lemma_all(decimal(rank));
    lemma_all(name);
    lemma_all(fixed(row.avg_apr, 2, true));
    lemma_all(fixed(std_of(row), 2, false));
    lemma_all(fixed(row.last_apr, 2, true));
    lemma_all(signed_decimal(row.snap_count as int));
    lemma_all(last_seen);
    lemma_all(fixed(row.mark_price, 4, false));
    lemma_all(usd_text(row.day_volume_usd));
    lemma_all(decimal(row.max_leverage as nat));
    let l = decimal(row.max_leverage as nat);
    longer(l, "x"@);
}

/// The filters of a query, the start of a collection and what was saved are told with their
/// figures.
pub proof fn filters_and_collections_are_told(
    hours: nat,
    min_apr: Binary64,
    min_count: int,
    seconds: nat,
    count: nat,
    db_size: nat,
    total: int,
)
    ensures
        tells(persistent_head_text(hours, min_apr, min_count), decimal(hours as nat)),
        tells(persistent_head_text(hours, min_apr, min_count), fixed(min_apr, 0, false)),
        tells(persistent_head_text(hours, min_apr, min_count), signed_decimal(min_count as int)),
        tells(collect_start_text(seconds), decimal(seconds as nat)),
        tells(saved_text(count, db_size, total), decimal(count as nat)),
        tells(saved_text(count, db_size, total), bytes_text(db_size)),
        tells(saved_text(count, db_size, total), signed_decimal(total as int)),
{
    let l = "window="@;
    let l = longer(l, decimal(hours as nat));
    let l = longer(l, "h, min |avg APR|="@);
    let l = longer(l, fixed(min_apr, 0, false));
    let l = longer(l, "%, min snapshots="@);
    let l = longer(l, signed_decimal(min_count as int));
    longer(l, ", std/|avg| < 0.30, last vol > $1M"@);
    let l = "Starting collect mode, interval: "@;
    let l = longer(l, decimal(seconds as nat));
    longer(l, "s, db: ./data/snapshots.db"@);
    let l = "Saved "@;
    let l = longer(l, decimal(count as nat));
    let l = longer(l, " snapshots, db size: "@);
    let l = longer(l, bytes_text(db_size));
    let l = longer(l, ", total snapshots: "@);
    longer(l, signed_decimal(total as int));
}

/// Where the universe and the figures do not belong together, both lengths are told.
pub proof fn lengths_that_do_not_match_are_told(e: LengthMismatch)
    ensures
        tells(mismatch_text(e), decimal(e.universe as nat)),
        tells(mismatch_text(e), decimal(e.ctxs as nat)),
{
    let l = "длина universe ("@;
    let l = longer(l, decimal(e.universe as nat));
    let l = longer(l, ") != длина ctxs ("@);
    let l = longer(l, decimal(e.ctxs as nat));
    longer(l, ")"@);
}

/// The head of a sweep tells its days and its capital.
pub proof fn a_sweep_tells_its_days_and_its_capital(days: nat, capital: Binary64)
    ensures
        tells(sweep_head_text(days, capital)[2], decimal(days as nat)),
        tells(sweep_head_text(days, capital)[2], fixed(capital, 0, false)),
{
    let l = "Period: "@;
    let l = longer(l, decimal(days as nat));
    let l = longer(l, " days | Capital: $"@);
    let l = longer(l, fixed(capital, 0, false));
    longer(l, " | Costs (taker round-trip): spread 20 + 2*taker 4.5 + 2*slip 10 = 49bps"@);
}

/// A run is told with its place, its parameters, its trades and its result.
pub proof fn a_run_is_told_as_it_ends(place: nat, total: nat, args: BacktestArgs, c: ComboResult)
    ensures
        tells(progress_text(place, total, args, c), right(decimal(place), 3)),
        tells(progress_text(place, total, args, c), right(decimal(total), 3)),
        tells(
            progress_text(place, total, args, c),
            left(exit_strategy_text(args.exit_strategy), 13),
        ),
        tells(progress_text(place, total, args, c), left(bool_text(args.use_maker), 5)),
        tells(progress_text(place, total, args, c), right(fixed(c.min_funding_apr, 0, false), 3)),
        tells(progress_text(place, total, args, c), right(decimal(args.hold_hours as nat), 2)),
        tells(progress_text(place, total, args, c), decimal(args.max_positions as nat)),
        tells(progress_text(place, total, args, c), right(decimal(c.trades as nat), 3)),
        tells(progress_text(place, total, args, c), fixed(c.net_pnl, 2, true)),
        tells(sub_progress_text(place, total, args, c), right(decimal(place), 3)),
        tells(sub_progress_text(place, total, args, c), right(decimal(total), 3)),
        tells(
            sub_progress_text(place, total, args, c),
            right(fixed(args.hysteresis_entry_apr, 0, false), 3),
        ),
        tells(
            sub_progress_text(place, total, args, c),
            right(fixed(args.hysteresis_exit_apr, 0, false), 3),
        ),
        tells(sub_progress_text(place, total, args, c), right(decimal(args.hold_hours as nat), 2)),
        tells(sub_progress_text(place, total, args, c), right(decimal(c.trades as nat), 3)),
        tells(sub_progress_text(place, total, args, c), fixed(c.net_pnl, 2, true)),
{
    let l = "  combo "@;
    let l = longer(l, right(decimal(place), 3));
    let l = longer(l, "/"@);
    let l = longer(l, right(decimal(total), 3));
    let l = longer(l, ": "@);
    let l = longer(l, left(exit_strategy_text(args.exit_strategy), 13));
    let l = longer(l, " maker="@);
    let l = longer(l, left(bool_text(args.use_maker), 5));
    let l = longer(l, " apr="@);
    let l = longer(l, right(fixed(c.min_funding_apr, 0, false), 3));
    let l = longer(l, "% hold="@);
    let l = longer(l, right(decimal(args.hold_hours as nat), 2));
    let l = longer(l, "h pos="@);
    let l = longer(l, decimal(args.max_positions as nat));
    let l = longer(l, " → trades="@);
    let l = longer(l, right(decimal(c.trades as nat), 3));
    let l = longer(l, " net=$"@);
    longer(l, fixed(c.net_pnl, 2, true));
    let l = "  combo "@;
    let l = longer(l, right(decimal(place), 3));
    let l = longer(l, "/"@);
    let l = longer(l, right(decimal(total), 3));
    let l = longer(l, ": hyst_sub    maker=true  hyst_entry="@);
    let l = longer(l, right(fixed(args.hysteresis_entry_apr, 0, false), 3));
    let l = longer(l, "% hyst_exit="@);
    let l = longer(l, right(fixed(args.hysteresis_exit_apr, 0, false), 3));
    let l = longer(l, "% hold="@);
    let l = longer(l, right(decimal(args.hold_hours as nat), 2));
    let l = longer(l, "h pos=3 → trades="@);
    let l = longer(l, right(decimal(c.trades as nat), 3));
    let l = longer(l, " net=$"@);
    longer(l, fixed(c.net_pnl, 2, true));
}

/// The best run is told with its parameters and its figures.
pub proof fn the_best_run_is_told_in_full(c: ComboResult)
    ensures
        tells(best_text(c)[0], exit_strategy_text(c.exit_strategy)),
        tells(best_text(c)[0], bool_text(c.use_maker)),
        tells(best_text(c)[0], entry_rule(c)),
        tells(best_text(c)[0], decimal(c.hold_hours as nat)),
        tells(best_text(c)[0], decimal(c.max_positions as nat)),
        tells(best_text(c)[1], fixed(c.net_pnl, 2, true)),
        tells(best_text(c)[1], fixed(c.annualized_pct, 1, true)),
        tells(best_text(c)[1], decimal(c.trades as nat)),
        tells(best_text(c)[1], fixed(c.win_pct, 0, false)),
        tells(best_text(c)[1], fixed(c.max_drawdown, 2, false)),
        tells(combo_cells_text(c)[0], exit_strategy_text(c.exit_strategy)),
        tells(combo_cells_text(c)[1], maker_text(c.use_maker)),
        tells(combo_cells_text(c)[2], entry_cell(c)),
        tells(combo_cells_text(c)[3], exit_cell(c)),
        tells(combo_cells_text(c)[4], decimal(c.hold_hours as nat)),
        tells(combo_cells_text(c)[5], decimal(c.max_positions as nat)),
        tells(combo_cells_text(c)[6], decimal(c.trades as nat)),
        tells(combo_cells_text(c)[7], fixed(c.win_pct, 0, false)),
        tells(combo_cells_text(c)[8], fixed(c.net_pnl, 2, true)),
        tells(combo_cells_text(c)[9], fixed(c.annualized_pct, 1, true)),
        tells(combo_cells_text(c)[10], fixed(c.max_drawdown, 2, false)),
{
    let l = "Best: strat="@;
    let l = longer(l, exit_strategy_text(c.exit_strategy));
    let l = longer(l, " | maker="@);
    let l = longer(l, bool_text(c.use_maker));
    let l = longer(l, " | "@);
    let l = longer(l, entry_rule(c));
    let l = longer(l, " | hold="@);
    let l = longer(l, decimal(c.hold_hours as nat));
    let l = longer(l, "h | max_pos="@);
    longer(l, decimal(c.max_positions as nat));
    let l = "      Net $"@;
    let l = longer(l, fixed(c.net_pnl, 2, true));
    let l = longer(l, " | annualized "@);
    let l = longer(l, fixed(c.annualized_pct, 1, true));
    let l = longer(l, "% | "@);
    let l = longer(l, decimal(c.trades as nat));
    let l = longer(l, " trades | "@);
    let l = longer(l, fixed(c.win_pct, 0, false));
    let l = longer(l, "% win | maxDD $"@);
    longer(l, fixed(c.max_drawdown, 2, false));
    lemma_all(exit_strategy_text(c.exit_strategy));
    lemma_all(maker_text(c.use_maker));
    lemma_all(entry_cell(c));
    lemma_all(exit_cell(c));
    lemma_all(decimal(c.hold_hours as nat));
    lemma_all(decimal(c.max_positions as nat));
    lemma_all(decimal(c.trades as nat));
    lemma_all(fixed(c.win_pct, 0, false));
    let l = fixed(c.win_pct, 0, false);
    longer(l, "%"@);
    let l = "$"@;
    longer(l, fixed(c.net_pnl, 2, true));
    lemma_all(fixed(c.annualized_pct, 1, true));
    let l = fixed(c.annualized_pct, 1, true);
    longer(l, "%"@);
    let l = "$"@;
    longer(l, fixed(c.max_drawdown, 2, false));
}

/// Counts, thresholds and means of a sweep are told with their figures.
pub proof fn the_insights_of_a_sweep_are_told(
    s: CliExitStrategy,
    good: nat,
    all: nat,
    kind: Seq<char>,
    apr: Binary64,
    row: AverageRow,
    unit: Seq<char>,
)
    ensures
        tells(profitable_text(s, good, all), exit_strategy_text(s)),
        tells(profitable_text(s, good, all), decimal(good as nat)),
        tells(profitable_text(s, good, all), decimal(all as nat)),
        tells(threshold_found_text(kind, apr), kind),
        tells(threshold_found_text(kind, apr), fixed(apr, 0, false)),
        tells(average_text(row, unit), decimal(row.key as nat)),
        tells(average_text(row, unit), unit),
        tells(average_text(row, unit), fixed(row.avg, 2, true)),
        tells(average_text(row, unit), decimal(row.count as nat)),
{
    let l = "Profitable combos for "@;
    let l = longer(l, exit_strategy_text(s));
    let l = longer(l, ": "@);
    let l = longer(l, decimal(good as nat));
    let l = longer(l, "/"@);
    longer(l, decimal(all as nat));
    let l = "Lowest profitable APR threshold ("@;
    let l = longer(l, kind);
    let l = longer(l, " entry): "@);
    let l = longer(l, fixed(apr, 0, false));
    longer(l, "%"@);
    let l = "  "@;
    let l = longer(l, decimal(row.key as nat));
    let l = longer(l, unit);
    let l = longer(l, ": $"@);
    let l = longer(l, fixed(row.avg, 2, true));
    let l = longer(l, "  ("@);
    let l = longer(l, decimal(row.count as nat));
    longer(l, " combos)"@);
}

/// A download tells its coins, its days, its rows and its failures.
pub proof fn a_download_tells_how_far_it_is(
    coins: nat,
    start_ms: int,
    end_ms: int,
    done: nat,
    inserted: nat,
    skipped: nat,
    attempt: nat,
    coin: Seq<char>,
    reason: Seq<char>,
)
    ensures
        tells(download_start_text(coins, start_ms, end_ms), decimal(coins as nat)),
        tells(
            download_start_text(coins, start_ms, end_ms),
            signed_decimal(truncated(end_ms - start_ms, 86_400_000)),
        ),
        tells(download_progress_text(done, coins, inserted), decimal(done as nat)),
        tells(download_progress_text(done, coins, inserted), decimal(coins as nat)),
        tells(download_progress_text(done, coins, inserted), decimal(inserted as nat)),
        tells(download_end_text(inserted, skipped), decimal(inserted as nat)),
        tells(download_end_text(inserted, skipped), decimal(skipped as nat)),
        tells(retry_note_text(attempt, coin, reason), decimal((attempt + 1) as nat)),
        tells(retry_note_text(attempt, coin, reason), coin),
        tells(retry_note_text(attempt, coin, reason), reason),
{
    let l = "Downloading historical funding: "@;
    let l = longer(l, decimal(coins as nat));
    let l = longer(l, " coins, period "@);
    let l = longer(l, signed_decimal(truncated(end_ms - start_ms, 86_400_000)));
    longer(l, " days..."@);
    let l = "  ... "@;
    let l = longer(l, decimal(done as nat));
    let l = longer(l, "/"@);
    let l = longer(l, decimal(coins as nat));
    let l = longer(l, " coins, +"@);
    let l = longer(l, decimal(inserted as nat));
    longer(l, " entries so far"@);
    let l = "Download done: "@;
    let l = longer(l, decimal(inserted as nat));
    let l = longer(l, " new entries inserted, "@);
    let l = longer(l, decimal(skipped as nat));
    longer(l, " coins already up-to-date"@);
    let l = "  retry "@;
    let l = longer(l, decimal((attempt + 1) as nat));
    let l = longer(l, "/3 for "@);
    let l = longer(l, coin);
    let l = longer(l, ": "@);
    longer(l, reason);
}

/// The notes of the monitor tell how many assets and signals there are, and which asset was muted.
pub proof fn the_monitor_tells_its_counts(
    assets: nat,
    c: TierCounts,
    asset: Seq<char>,
    changes: nat,
)
    ensures
        tells(startup_note_text(assets, c), decimal(assets as nat)),
        tells(startup_note_text(assets, c), decimal(c.strong as nat)),
        tells(startup_note_text(assets, c), decimal(c.medium as nat)),
        tells(startup_note_text(assets, c), decimal(c.early as nat)),
        tells(tick_note_text(assets, c), decimal(assets as nat)),
        tells(tick_note_text(assets, c), decimal(c.strong as nat)),
        tells(tick_note_text(assets, c), decimal(c.medium as nat)),
        tells(tick_note_text(assets, c), decimal(c.early as nat)),
        tells(tick_note_text(assets, c), decimal(c.weak as nat)),
        tells(mute_note_text(asset, changes), asset),
        tells(mute_note_text(asset, changes), decimal(changes as nat)),
{
    let l = "🟢 Alert monitor started, tracking "@;
    let l = longer(l, decimal(assets as nat));
    let l = longer(l, " assets, current tiers: STRONG="@);
    let l = longer(l, decimal(c.strong as nat));
    let l = longer(l, ", MEDIUM="@);
    let l = longer(l, decimal(c.medium as nat));
    let l = longer(l, ", EARLY="@);
    longer(l, decimal(c.early as nat));
    let l = "tick: "@;
    let l = longer(l, decimal(assets as nat));
    let l = longer(l, " signals (S="@);
    let l = longer(l, decimal(c.strong as nat));
    let l = longer(l, ", M="@);
    let l = longer(l, decimal(c.medium as nat));
    let l = longer(l, ", E="@);
    let l = longer(l, decimal(c.early as nat));
    let l = longer(l, ", W="@);
    let l = longer(l, decimal(c.weak as nat));
    longer(l, ")"@);
    let l = "Muted "@;
    let l = longer(l, asset);
    let l = longer(l, " due to instability ("@);
    let l = longer(l, decimal(changes as nat));
    longer(l, " changes in last 10min)"@);
}

/// An alert tells its kind, its asset and its tiers, and its message the figures of the signal.
pub proof fn an_alert_is_told_in_full(
    e: EventView,
    header: Seq<char>,
    asset: Seq<char>,
    d: SignalData,
)
    ensures
        tells(alert_note_text(e), kind_text(e.kind)),
        tells(alert_note_text(e), e.asset),
        tells(alert_note_text(e), tier_note(e.prev_tier)),
        tells(alert_note_text(e), tier_note(tier_in(e.signal))),
        tells(signal_message_text(header, asset, d), header),
        tells(signal_message_text(header, asset, d), asset),
        tells(signal_message_text(header, asset, d), side_of(d.apr_now)),
        tells(signal_message_text(header, asset, d), fixed(daily_yield(d.apr_now), 2, false)),
        tells(signal_message_text(header, asset, d), fixed(d.score, 0, false)),
        tells(signal_message_text(header, asset, d), label_spec(d.tier)),
        tells(signal_message_text(header, asset, d), fixed(d.history_h, 1, false)),
        tells(signal_message_text(header, asset, d), fixed(d.std_pct, 0, false)),
        tells(signal_message_text(header, asset, d), usd_text(d.volume_24h)),
        tells(signal_message_text(header, asset, d), size_text(d.tier)),
        tells(lost_message_text(header, asset), header),
        tells(lost_message_text(header, asset), asset),
{
    let l = "alert "@;
    let l = longer(l, kind_text(e.kind));
    let l = longer(l, ": "@);
    let l = longer(l, e.asset);
    let l = longer(l, " (prev="@);
    let l = longer(l, tier_note(e.prev_tier));
    let l = longer(l, ", new="@);
    let l = longer(l, tier_note(tier_in(e.signal)));
    longer(l, ")"@);
    lemma_all(header);
    let l = header;
    let l = longer(l, "\nAsset: "@);
    let l = longer(l, asset);
    let l = longer(l, "\nAction: "@);
    let l = longer(l, side_of(d.apr_now));
    let l = longer(l, " to earn $"@);
    let l = longer(l, fixed(daily_yield(d.apr_now), 2, false));
    let l = longer(l, "/day per $100\nScore: "@);
    let l = longer(l, fixed(d.score, 0, false));
    let l = longer(l, "/100\nConfidence: "@);
    let l = longer(l, label_spec(d.tier));
    let l = longer(l, " ("@);
    let l = longer(l, fixed(d.history_h, 1, false));
    let l = longer(l, "h data, std "@);
    let l = longer(l, fixed(d.std_pct, 0, false));
    let l = longer(l, "%)\nVolume 24h: "@);
    let l = longer(l, usd_text(d.volume_24h));
    let l = longer(l, "\nRecommended size: "@);
    let l = longer(l, size_text(d.tier));
    longer(l, " of capital\n\n⚠️ Educational signal only. Verify before trading."@);
    lemma_all(header);
    let l = header;
    let l = longer(l, "\nAsset: "@);
    let l = longer(l, asset);
    longer(l, "\nSignal dropped from action list."@);
}

/// An action tells its side and what it earns, and a trap its rate and its volume.
pub proof fn actions_and_risks_are_told(apr: Binary64, volume: Binary64)
    ensures
        tells(action_text(apr), side_of(apr)),
        tells(action_text(apr), fixed(daily_yield(apr), 2, false)),
        tells(trap_risk_text(apr, volume), fixed(apr, 0, true)),
        tells(trap_risk_text(apr, volume), usd_text(volume)),
{
    lemma_all(side_of(apr));
    let l = side_of(apr);
    let l = longer(l, " to earn $"@);
    let l = longer(l, fixed(daily_yield(apr), 2, false));
    longer(l, "/day per $100"@);
    let l = "APR "@;
    let l = longer(l, fixed(apr, 0, true));
    let l = longer(l, "% with vol "@);
    let l = longer(l, usd_text(volume));
    longer(l, " < $1M"@);
}

/// What stands in place of a section tells how much time the readings cover, and a late reading
/// its age.
pub proof fn missing_readings_are_told(span: int, age: int, every: int, moment: Seq<char>)
    ensures
        tells(need_hour_text(span), signed_decimal(truncated(span, 60))),
        tells(need_data_text(span), signed_decimal(truncated(span, 60))),
        tells(need_six_hours_text(span), fixed(hours_of(span), 1, false)),
        tells(stale_text(age, every), signed_decimal(age as int)),
        tells(stale_text(age, every), signed_decimal(every as int)),
        tells(reading_text(moment, age), moment),
        tells(reading_text(moment, age), signed_decimal(age)),
        tells(coverage_text(span), fixed(hours_of(span), 1, false)),
{
    let l = "Need more data: have ~"@;
    let l = longer(l, signed_decimal(truncated(span, 60)));
    longer(l, " min of history, need at least 1h with ≥8 snapshots per asset"@);
    let l = "Need at least 1h of data; currently have ~"@;
    let l = longer(l, signed_decimal(truncated(span, 60)));
    longer(l, " min"@);
    let l = "No candidates yet. Persistent analysis needs ≥6h of data, currently have "@;
    let l = longer(l, fixed(hours_of(span), 1, false));
    longer(l, "h"@);
    let l = " (last snapshot "@;
    let l = longer(l, signed_decimal(age as int));
    let l = longer(l, "s ago, expected every "@);
    let l = longer(l, signed_decimal(every as int));
    longer(l, "s)"@);
    let l = "Last snapshot: "@;
    let l = longer(l, moment);
    let l = longer(l, " ("@);
    let l = longer(l, signed_decimal(age));
    longer(l, "s ago)"@);
    let l = "Uptime tracking: "@;
    let l = longer(l, fixed(hours_of(span), 1, false));
    longer(l, "h of data"@);
}

/// The head of the dashboard tells the size of the database, the readings, the age of the last one
/// and the time that they cover.
pub proof fn the_dashboard_tells_its_head(
    db_size: nat,
    total: int,
    first: i64,
    last: i64,
    perps: int,
    every: i64,
    now: int,
)
    ensures
        tells(
            watch::head_text(db_size, total, Some(first), Some(last), perps, Some(every), now)[0],
            bytes_text(db_size),
        ),
        tells(
            watch::head_text(db_size, total, Some(first), Some(last), perps, Some(every), now)[1],
            signed_decimal(total),
        ),
        tells(
            watch::head_text(db_size, total, Some(first), Some(last), perps, Some(every), now)[2],
            or_else_text(utc_text(last as int, "%Y-%m-%d %H:%M:%S UTC"@), "?"@),
        ),
        tells(
            watch::head_text(db_size, total, Some(first), Some(last), perps, Some(every), now)[2],
            signed_decimal(now - last),
        ),
        tells(
            watch::head_text(db_size, total, Some(first), Some(last), perps, Some(every), now)[3],
            signed_decimal(perps),
        ),
        tells(
            watch::head_text(db_size, total, Some(first), Some(last), perps, Some(every), now)[3],
            interval_text(Some(every)),
        ),
        tells(
            watch::head_text(db_size, total, Some(first), Some(last), perps, Some(every), now)[4],
            fixed(hours_of(last - first), 1, false),
        ),
{
    let l = "DB: ./data/snapshots.db ("@;
    let l = longer(l, bytes_text(db_size));
    longer(l, ")"@);
    let l = "Total snapshots: "@;
    longer(l, signed_decimal(total));
    let l = "Last snapshot: "@;
    let l = longer(l, or_else_text(utc_text(last as int, "%Y-%m-%d %H:%M:%S UTC"@), "?"@));
    let l = longer(l, " ("@);
    let l = longer(l, signed_decimal(now - last));
    longer(l, "s ago)"@);
    let l = "Snapshot rate: "@;
    let l = longer(l, signed_decimal(perps));
    let l = longer(l, " perps / "@);
    longer(l, interval_text(Some(every)));
    let l = "Uptime tracking: "@;
    let l = longer(l, fixed(hours_of(last - first), 1, false));
    longer(l, "h of data"@);
}

/// The controls tell when the dashboard was brought up to date and what went wrong.
pub proof fn the_controls_tell_the_last_update(error: Seq<char>, updated: Seq<char>)
    ensures
        tells(controls_text(None, updated), updated),
        tells(controls_text(Some(error), updated), error),
        tells(controls_text(Some(error), updated), updated),
{
    let l = "'q' quit | 'r' refresh | Last update: "@;
    longer(l, updated);
    let l = "⚠ DB error: "@;
    let l = longer(l, error);
    let l = longer(l, " | 'q' quit | 'r' refresh | Last update: "@);
    longer(l, updated);
}

/// The rows of the dashboard tell the names, the rates, the deviations, the volumes and the
/// scores.
pub proof fn movers_and_candidates_are_told_in_full(
    m: HourStats,
    c: CandidateRow,
    a: ActionView,
    asset: Seq<char>,
)
    ensures
        tells(mover_cells_text(m, asset)[0], asset),
        tells(mover_cells_text(m, asset)[1], fixed(m.apr_now, 2, true)),
        tells(mover_cells_text(m, asset)[2], fixed(m.avg, 2, true)),
        tells(mover_cells_text(m, asset)[3], fixed(percent_of_mean(m.avg, m.std), 0, false)),
        tells(mover_cells_text(m, asset)[4], arrow_of(m.direction)),
        tells(mover_cells_text(m, asset)[5], usd_text(m.volume_24h)),
        tells(mover_cells_text(m, asset)[6], receiving_side(m.apr_now)),
        tells(candidate_cells_text(c, asset)[0], asset),
        tells(candidate_cells_text(c, asset)[1], fixed(c.avg_apr, 2, true)),
        tells(
            candidate_cells_text(c, asset)[2],
            fixed(percent_of_mean(c.avg_apr, c.std_apr), 0, false),
        ),
        tells(candidate_cells_text(c, asset)[3], decimal(c.snap_count as nat)),
        tells(candidate_cells_text(c, asset)[4], receiving_side(c.avg_apr)),
        tells(candidate_cells_text(c, asset)[5], fixed(c.score, 1, false)),
        tells(action_cells_text(a)[0], a.asset),
        tells(action_cells_text(a)[1], a.action),
        tells(action_cells_text(a)[2], score_cell(a.tier, a.score)),
        tells(action_cells_text(a)[3], confidence_label(a.tier)),
        tells(action_cells_text(a)[4], size_range(a.tier)),
        tells(action_cells_text(a)[5], a.risks),
{
    lemma_all(asset);
    lemma_all(fixed(m.apr_now, 2, true));
    let l = fixed(m.apr_now, 2, true);
    longer(l, "%"@);
    lemma_all(fixed(m.avg, 2, true));
    let l = fixed(m.avg, 2, true);
    longer(l, "%"@);
    lemma_all(fixed(percent_of_mean(m.avg, m.std), 0, false));
    let l = fixed(percent_of_mean(m.avg, m.std), 0, false);
    longer(l, "%"@);
    lemma_all(arrow_of(m.direction));
    lemma_all(usd_text(m.volume_24h));
    lemma_all(receiving_side(m.apr_now));
    lemma_all(asset);
    lemma_all(fixed(c.avg_apr, 2, true));
    let l = fixed(c.avg_apr, 2, true);
    longer(l, "%"@);
    lemma_all(fixed(percent_of_mean(c.avg_apr, c.std_apr), 0, false));
    let l = fixed(percent_of_mean(c.avg_apr, c.std_apr), 0, false);
    longer(l, "%"@);
    lemma_all(decimal(c.snap_count as nat));
    lemma_all(receiving_side(c.avg_apr));
    lemma_all(fixed(c.score, 1, false));
    lemma_all(a.asset);
    lemma_all(a.action);
    lemma_all(score_cell(a.tier, a.score));
    lemma_all(confidence_label(a.tier));
    lemma_all(size_range(a.tier));
    lemma_all(a.risks);
}

} // verus!
