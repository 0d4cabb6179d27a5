//! The report on a backtest, as lines of text and rows of tables.

use crate::backtest::{
    entry_cost_bps, entry_cost_spec, exit_cost_bps, exit_reason_str, exit_reason_text,
    min_tier_label, min_tier_text, side_str, side_text, taker_cost,
};
use crate::backtest::{BacktestArgs, Trade};
use crate::binary64::Binary64;
use crate::dates::{day_text, minute_text, or_else_text, utc_text};
use crate::decimal::{append_decimal, append_fixed, decimal, fixed, fixed_text, text, texts};
use crate::metrics::{figures, list_figures, Figure};
use crate::order::{by_falling_value, descending, double_keys};
use crate::simulation::truncated;
use crate::summary::{
    asset_rows, comparable, least, reason_rows_until, rows_by_asset, rows_by_reason, rows_by_tier,
    summarize, summary_of, tier_rows, GroupRow, ReasonRow, Summary,
};
use crate::tier::{label_spec, tier_label};
use vstd::prelude::*;
use vstd::string::*;

verus! {

/// The day of a time in milliseconds.
pub open spec fn date_of(ms: int) -> Seq<char> {
    or_else_text(utc_text(truncated(ms, 1000), "%Y-%m-%d"@), ""@)
}

/// The minute of a time in seconds.
pub open spec fn minute_of(secs: int) -> Seq<char> {
    or_else_text(utc_text(secs, "%m-%d %H:%M"@), "?"@)
}

pub open spec fn entry_kind(use_maker: bool) -> Seq<char> {
    if use_maker {
        "maker (mid fill assumed)"@
    } else {
        "taker = spread/2 + taker_fee + slippage"@
    }
}

fn entry_kind_str(use_maker: bool) -> (r: &'static str)
    ensures
        r@ == entry_kind(use_maker),
{
    if use_maker {
        "maker (mid fill assumed)"
    } else {
        "taker = spread/2 + taker_fee + slippage"
    }
}

/// What is said of the ratio of the costs to the profit: more than a hundred percent is a loss by
/// construction, and without a profit there is no ratio.
pub open spec fn ratio_note(ratio: Binary64) -> Seq<char> {
    if !ratio.finite() {
        "n/a (gross P&L ≤ 0)"@
    } else if ratio.above(100) {
        fixed(ratio, 1, false) + "% (>100% — стратегия структурно убыточна)"@
    } else {
        fixed(ratio, 1, false) + "% "@
    }
}

fn ratio_note_text(ratio: Binary64) -> (r: String)
    ensures
        r@ == ratio_note(ratio),
{
    if !ratio.is_finite() {
        return text("n/a (gross P&L ≤ 0)");
    }
    let mut l = fixed_text(ratio, 1);
    if ratio.is_above(100) {
        l.append("% (>100% — стратегия структурно убыточна)");
    } else {
        l.append("% ");
    }
    l
}

/// Whether the mean rate at entry is enough to pay for the costs.
pub open spec fn verdict(avg_entry: Binary64, break_even: Binary64) -> Seq<char> {
    if avg_entry.less(break_even) {
        "⚠ Avg entry APR ("@ + fixed(avg_entry, 0, false) + "%) < break-even ("@ + fixed(
            break_even,
            0,
            false,
        ) + "%) — стратегия структурно убыточна с этими costs."@
    } else {
        "✓ Avg entry APR ("@ + fixed(avg_entry, 0, false) + "%) >= break-even ("@ + fixed(
            break_even,
            0,
            false,
        ) + "%) — стратегия выживает (по среднему)."@
    }
}

fn verdict_text(avg_entry: Binary64, break_even: Binary64) -> (r: String)
    ensures
        r@ == verdict(avg_entry, break_even),
{
    if avg_entry.is_less(break_even) {
        let mut l = text("⚠ Avg entry APR (");
        append_fixed(&mut l, avg_entry, 0, false);
        l.append("%) < break-even (");
        append_fixed(&mut l, break_even, 0, false);
        l.append("%) — стратегия структурно убыточна с этими costs.");
        l
    } else {
        let mut l = text("✓ Avg entry APR (");
        append_fixed(&mut l, avg_entry, 0, false);
        l.append("%) >= break-even (");
        append_fixed(&mut l, break_even, 0, false);
        l.append("%) — стратегия выживает (по среднему).");
        l
    }
}

/// A period, by the texts of its first and its last day.
pub open spec fn period_text(start: Seq<char>, end: Seq<char>, days: nat) -> Seq<char> {
    "Period: "@ + start + " to "@ + end + " ("@ + decimal(days) + " days)"@
}

/// A period, by the texts of its first and its last day.
pub fn period_line(start: &str, end: &str, days: u32) -> (r: String)
    ensures
        r@ == period_text(start@, end@, days as nat),
{
    let mut l = text("Period: ");
    l.append(start);
    l.append(" to ");
    l.append(end);
    l.append(" (");
    append_decimal(&mut l, days as u128);
    l.append(" days)");
    l
}

pub open spec fn head_text(
    args: BacktestArgs,
    start_ms: int,
    end_ms: int,
) -> Seq<Seq<char>> {
    seq![
        ""@,
        "═══════════════ BACKTEST SUMMARY ═══════════════"@,
        period_text(date_of(start_ms), date_of(end_ms), args.days as nat),
        "Initial capital: $"@ + fixed(args.capital, 0, false),
        "Max concurrent positions: "@ + decimal(args.max_positions as nat),
        "Min tier: "@ + min_tier_text(args.min_tier),
        "Hold hours: "@ + decimal(args.hold_hours as nat),
    ]
}

/// The period and the limits of a backtest.
pub fn head_lines(args: &BacktestArgs, start_ms: i64, end_ms: i64) -> (r: Vec<String>)
    ensures
        texts(r@) == head_text(*args, start_ms as int, end_ms as int),
{
    let start = day_text(start_ms / 1000);
    let end = day_text(end_ms / 1000);
    let mut lines: Vec<String> = Vec::new();
    lines.push(text(""));
    lines.push(text("═══════════════ BACKTEST SUMMARY ═══════════════"));
    lines.push(period_line(start.as_str(), end.as_str(), args.days));
    let mut l = text("Initial capital: $");
    append_fixed(&mut l, args.capital, 0, false);
    lines.push(l);
    let mut l = text("Max concurrent positions: ");
    append_decimal(&mut l, args.max_positions as u128);
    lines.push(l);
    let mut l = text("Min tier: ");
    l.append(min_tier_label(args.min_tier));
    lines.push(l);
    let mut l = text("Hold hours: ");
    append_decimal(&mut l, args.hold_hours as u128);
    lines.push(l);
    assert(texts(lines@) =~= head_text(*args, start_ms as int, end_ms as int));
    lines
}

pub open spec fn no_trades_text() -> Seq<Seq<char>> {
    seq![
        ""@,
        "No trades executed. Possible reasons:"@,
        "  - No coin reached min_tier during the period"@,
        "  - Not enough historical data (need >= 24h warm-up before first decision)"@,
        "  - Try lowering --min-tier to EARLY or extending --days"@,
    ]
}

/// What is said where there was no trade.
pub fn no_trades_lines() -> (r: Vec<String>)
    ensures
        texts(r@) == no_trades_text(),
{
    let mut lines: Vec<String> = Vec::new();
    lines.push(text(""));
    lines.push(text("No trades executed. Possible reasons:"));
    lines.push(text("  - No coin reached min_tier during the period"));
    lines.push(text("  - Not enough historical data (need >= 24h warm-up before first decision)"));
    lines.push(text("  - Try lowering --min-tier to EARLY or extending --days"));
    assert(texts(lines@) =~= no_trades_text());
    lines
}

pub open spec fn results_text(
    s: Summary,
    best: Trade,
    best_name: Seq<char>,
    worst: Trade,
    worst_name: Seq<char>,
    days: nat,
) -> Seq<Seq<char>> {
    seq![
        ""@,
        "═══════════════ RESULTS (gross funding, before costs) ═══════════════"@,
        "Total trades: "@ + decimal(s.total as nat),
        "Winning: "@ + decimal(s.wins as nat) + " ("@ + fixed(s.win_pct, 0, false) + "%)"@,
        "Losing:  "@ + decimal(s.losses as nat) + " ("@ + fixed(s.loss_pct, 0, false) + "%)"@,
        "Avg P&L per trade (gross): $"@ + fixed(s.avg_pnl, 2, true),
        "Best trade (gross):  $"@ + fixed(best.gross_funding_pnl, 2, true) + " ("@ + best_name
            + ", "@ + decimal(best.hold_hours as nat) + "h hold, side="@ + side_text(best.side)
            + ")"@,
        "Worst trade (gross): $"@ + fixed(worst.gross_funding_pnl, 2, true) + " ("@
            + worst_name + ", "@ + decimal(worst.hold_hours as nat) + "h hold, exit_reason="@
            + exit_reason_text(worst.exit_reason) + ")"@,
        ""@,
        "Total P&L (gross): $"@ + fixed(s.total_pnl, 2, true) + " ("@
            + fixed(s.pct_return, 2, true) + "% over "@ + decimal(days as nat) + " days, ~"@
            + fixed(s.annualized, 0, true) + "% annualized)"@,
        "Sharpe-ish ratio (daily): "@ + fixed(s.daily.sharpe, 2, false) + "  (mean_daily=$"@
            + fixed(s.daily.mean, 2, false) + ", std_daily=$"@ + fixed(s.daily.std, 2, false)
            + ")"@,
        "Max drawdown (gross): $"@ + fixed(s.max_dd.negated_spec(), 2, true)
            + " (peak to trough)"@,
    ]
}

/// The results before costs.
pub fn results_lines(
    s: &Summary,
    best: &Trade,
    best_name: &str,
    worst: &Trade,
    worst_name: &str,
    days: u32,
) -> (r: Vec<String>)
    ensures
        texts(r@) == results_text(*s, *best, best_name@, *worst, worst_name@, days as nat),
{
    let mut lines: Vec<String> = Vec::new();
    lines.push(text(""));
    lines.push(text("═══════════════ RESULTS (gross funding, before costs) ═══════════════"));
    let mut l = text("Total trades: ");
    append_decimal(&mut l, s.total as u128);
    lines.push(l);
    let mut l = text("Winning: ");
    append_decimal(&mut l, s.wins as u128);
    l.append(" (");
    append_fixed(&mut l, s.win_pct, 0, false);
    l.append("%)");
    lines.push(l);
    let mut l = text("Losing:  ");
    append_decimal(&mut l, s.losses as u128);
    l.append(" (");
    append_fixed(&mut l, s.loss_pct, 0, false);
    l.append("%)");
    lines.push(l);
    let mut l = text("Avg P&L per trade (gross): $");
    append_fixed(&mut l, s.avg_pnl, 2, true);
    lines.push(l);
    let mut l = text("Best trade (gross):  $");
    append_fixed(&mut l, best.gross_funding_pnl, 2, true);
    l.append(" (");
    l.append(best_name);
    l.append(", ");
    append_decimal(&mut l, best.hold_hours as u128);
    l.append("h hold, side=");
    l.append(side_str(best.side));
    l.append(")");
    lines.push(l);
    let mut l = text("Worst trade (gross): $");
    append_fixed(&mut l, worst.gross_funding_pnl, 2, true);
    l.append(" (");
    l.append(worst_name);
    l.append(", ");
    append_decimal(&mut l, worst.hold_hours as u128);
    l.append("h hold, exit_reason=");
    l.append(exit_reason_str(worst.exit_reason));
    l.append(")");
    lines.push(l);
    lines.push(text(""));
    let mut l = text("Total P&L (gross): $");
    append_fixed(&mut l, s.total_pnl, 2, true);
    l.append(" (");
    append_fixed(&mut l, s.pct_return, 2, true);
    l.append("% over ");
    append_decimal(&mut l, days as u128);
    l.append(" days, ~");
    append_fixed(&mut l, s.annualized, 0, true);
    l.append("% annualized)");
    lines.push(l);
    let mut l = text("Sharpe-ish ratio (daily): ");
    append_fixed(&mut l, s.daily.sharpe, 2, false);
    l.append("  (mean_daily=$");
    append_fixed(&mut l, s.daily.mean, 2, false);
    l.append(", std_daily=$");
    append_fixed(&mut l, s.daily.std, 2, false);
    l.append(")");
    lines.push(l);
    let mut l = text("Max drawdown (gross): $");
    append_fixed(&mut l, s.max_dd.negated(), 2, true);
    l.append(" (peak to trough)");
    lines.push(l);
    assert(texts(lines@) =~= results_text(*s, *best, best_name@, *worst, worst_name@, days as nat));
    lines
}

pub open spec fn cost_text(s: Summary, args: BacktestArgs) -> Seq<Seq<char>> {
    seq![
        ""@,
        "═══════════════ COST BREAKDOWN ═══════════════"@,
        "Entry cost per trade: "@ + fixed(entry_cost_spec(args), 1, false) + " bps ("@
            + entry_kind(args.use_maker) + ")"@,
        "Exit cost per trade:  "@ + fixed(taker_cost(args), 1, false)
            + " bps (taker = spread/2 + taker_fee + slippage)"@,
        "Total entry costs: $"@ + fixed(s.entry_costs, 2, false),
        "Total exit costs:  $"@ + fixed(s.exit_costs, 2, false),
        "Total costs: $"@ + fixed(s.costs, 2, false) + " ("@
            + fixed(s.cost_pct_of_gross, 1, false) + "% of gross P&L)"@,
        "Gross P&L (before costs): $"@ + fixed(s.total_pnl, 2, true),
        "Net P&L (after costs):    $"@ + fixed(s.net, 2, true),
        "Cost-to-profit ratio: "@ + ratio_note(s.cost_to_profit),
    ]
}

/// What entering and leaving cost.
pub fn cost_lines(s: &Summary, args: &BacktestArgs) -> (r: Vec<String>)
    ensures
        texts(r@) == cost_text(*s, *args),
{
    let ratio = ratio_note_text(s.cost_to_profit);
    let mut lines: Vec<String> = Vec::new();
    lines.push(text(""));
    lines.push(text("═══════════════ COST BREAKDOWN ═══════════════"));
    let mut l = text("Entry cost per trade: ");
    append_fixed(&mut l, entry_cost_bps(args), 1, false);
    l.append(" bps (");
    l.append(entry_kind_str(args.use_maker));
    l.append(")");
    lines.push(l);
    let mut l = text("Exit cost per trade:  ");
    append_fixed(&mut l, exit_cost_bps(args), 1, false);
    l.append(" bps (taker = spread/2 + taker_fee + slippage)");
    lines.push(l);
    let mut l = text("Total entry costs: $");
    append_fixed(&mut l, s.entry_costs, 2, false);
    lines.push(l);
    let mut l = text("Total exit costs:  $");
    append_fixed(&mut l, s.exit_costs, 2, false);
    lines.push(l);
    let mut l = text("Total costs: $");
    append_fixed(&mut l, s.costs, 2, false);
    l.append(" (");
    append_fixed(&mut l, s.cost_pct_of_gross, 1, false);
    l.append("% of gross P&L)");
    lines.push(l);
    let mut l = text("Gross P&L (before costs): $");
    append_fixed(&mut l, s.total_pnl, 2, true);
    lines.push(l);
    let mut l = text("Net P&L (after costs):    $");
    append_fixed(&mut l, s.net, 2, true);
    lines.push(l);
    let mut l = text("Cost-to-profit ratio: ");
    l.append(ratio.as_str());
    lines.push(l);
    assert(texts(lines@) =~= cost_text(*s, *args));
    lines
}

pub open spec fn adjusted_text(s: Summary, hold_hours: nat) -> Seq<Seq<char>> {
    seq![
        ""@,
        "═══════════════ COST-ADJUSTED METRICS ═══════════════"@,
        "Annualized return (gross): "@ + fixed(s.annualized, 1, true) + "%"@,
        "Annualized return (net of costs): "@ + fixed(s.net_annualized, 1, true) + "%"@,
        "Break-even funding APR: "@ + fixed(s.break_even, 0, false)
            + "% (минимум |APR| при котором funding покрывает costs за "@
            + decimal(hold_hours as nat) + "h hold)"@,
        "Average |funding APR| at entry: "@ + fixed(s.avg_entry_apr, 0, false) + "%"@,
        "  "@ + verdict(s.avg_entry_apr, s.break_even),
    ]
}

/// The returns with costs, and whether the entries paid for them.
pub fn adjusted_lines(s: &Summary, hold_hours: u32) -> (r: Vec<String>)
    ensures
        texts(r@) == adjusted_text(*s, hold_hours as nat),
{
    let verdict = verdict_text(s.avg_entry_apr, s.break_even);
    let mut lines: Vec<String> = Vec::new();
    lines.push(text(""));
    lines.push(text("═══════════════ COST-ADJUSTED METRICS ═══════════════"));
    let mut l = text("Annualized return (gross): ");
    append_fixed(&mut l, s.annualized, 1, true);
    l.append("%");
    lines.push(l);
    let mut l = text("Annualized return (net of costs): ");
    append_fixed(&mut l, s.net_annualized, 1, true);
    l.append("%");
    lines.push(l);
    let mut l = text("Break-even funding APR: ");
    append_fixed(&mut l, s.break_even, 0, false);
    l.append("% (минимум |APR| при котором funding покрывает costs за ");
    append_decimal(&mut l, hold_hours as u128);
    l.append("h hold)");
    lines.push(l);
    let mut l = text("Average |funding APR| at entry: ");
    append_fixed(&mut l, s.avg_entry_apr, 0, false);
    l.append("%");
    lines.push(l);
    let mut l = text("  ");
    l.append(verdict.as_str());
    lines.push(l);
    assert(texts(lines@) =~= adjusted_text(*s, hold_hours as nat));
    lines
}

/// The first line of a trade, by the texts of its entry and its exit.
pub open spec fn trade_head_text(
    rank: nat,
    t: Trade,
    name: Seq<char>,
    entry: Seq<char>,
    exit: Seq<char>,
) -> Seq<char> {
    decimal(rank) + ". "@ + name + " "@ + side_text(t.side) + " entry "@ + entry + " exit "@
        + exit + " ("@ + decimal(t.hold_hours as nat) + "h, size $"@ + fixed(t.size_usd, 0, false)
        + ")"@
}

/// The first line of a trade, by the texts of its entry and its exit.
pub fn trade_head(rank: usize, t: &Trade, name: &str, entry: &str, exit: &str) -> (r: String)
    ensures
        r@ == trade_head_text(rank as nat, *t, name@, entry@, exit@),
{
    let mut l = String::new();
    append_decimal(&mut l, rank as u128);
    assert(l@ =~= decimal(rank as nat));
    l.append(". ");
    l.append(name);
    l.append(" ");
    l.append(side_str(t.side));
    l.append(" entry ");
    l.append(entry);
    l.append(" exit ");
    l.append(exit);
    l.append(" (");
    append_decimal(&mut l, t.hold_hours as u128);
    l.append("h, size $");
    append_fixed(&mut l, t.size_usd, 0, false);
    l.append(")");
    l
}

pub open spec fn trade_text(rank: nat, t: Trade, name: Seq<char>) -> Seq<Seq<char>> {
    seq![
        trade_head_text(
            rank,
            t,
            name,
            minute_of(t.entry_time_sec as int),
            minute_of(t.exit_time_sec as int),
        ),
        "   Entry funding: "@ + fixed(t.funding_apr_at_entry, 0, true) + "% APR, Exit: "@
            + fixed(t.funding_apr_at_exit, 0, true) + "% APR"@,
        "   Gross funding: $"@ + fixed(t.gross_funding_pnl, 3, true) + ", Costs: -$"@
            + fixed(t.entry_cost.plus_spec(t.exit_cost), 3, false) + " (entry "@
            + fixed(t.entry_cost, 3, false) + "+exit "@ + fixed(t.exit_cost, 3, false)
            + "), Net: $"@ + fixed(t.net_pnl, 3, true),
        "   Reason exit: "@ + exit_reason_text(t.exit_reason) + ", entry tier: "@
            + label_spec(t.entry_tier),
    ]
}

/// A trade in four lines.
pub fn trade_lines(rank: usize, t: &Trade, name: &str) -> (r: Vec<String>)
    ensures
        texts(r@) == trade_text(rank as nat, *t, name@),
{
    let entry = minute_text(t.entry_time_sec);
    let exit = minute_text(t.exit_time_sec);
    let mut lines: Vec<String> = Vec::new();
    lines.push(trade_head(rank, t, name, entry.as_str(), exit.as_str()));
    let mut l = text("   Entry funding: ");
    append_fixed(&mut l, t.funding_apr_at_entry, 0, true);
    l.append("% APR, Exit: ");
    append_fixed(&mut l, t.funding_apr_at_exit, 0, true);
    l.append("% APR");
    lines.push(l);
    let mut l = text("   Gross funding: $");
    append_fixed(&mut l, t.gross_funding_pnl, 3, true);
    l.append(", Costs: -$");
    append_fixed(&mut l, t.entry_cost.plus(t.exit_cost), 3, false);
    l.append(" (entry ");
    append_fixed(&mut l, t.entry_cost, 3, false);
    l.append("+exit ");
    append_fixed(&mut l, t.exit_cost, 3, false);
    l.append("), Net: $");
    append_fixed(&mut l, t.net_pnl, 3, true);
    lines.push(l);
    let mut l = text("   Reason exit: ");
    l.append(exit_reason_str(t.exit_reason));
    l.append(", entry tier: ");
    l.append(tier_label(t.entry_tier));
    lines.push(l);
    assert(texts(lines@) =~= trade_text(rank as nat, *t, name@));
    lines
}

/// The places of the trades, the best result after costs first.
pub open spec fn by_net(trades: Seq<Trade>) -> Seq<usize> {
    descending(double_keys(figures(trades, Figure::Net)))
}

/// The places of the best trades after costs, five at most, the best first.
pub open spec fn top_five(trades: Seq<Trade>) -> Seq<usize> {
    by_net(trades).take(least(5, trades.len()) as int)
}

/// The places of the worst trades after costs, five at most, the worst first.
pub open spec fn bottom_five(trades: Seq<Trade>) -> Seq<usize> {
    Seq::new(least(5, trades.len()), |i: int| by_net(trades)[trades.len() - 1 - i])
}

/// The lines of the trades at the given places, numbered from one.
pub open spec fn trades_text(trades: Seq<Trade>, names: Seq<String>, places: Seq<usize>) -> Seq<
    Seq<char>,
>
    decreases places.len(),
{
    if places.len() == 0 {
        Seq::empty()
    } else {
        let t = trades[places.last() as int];
        trades_text(trades, names, places.drop_last()) + trade_text(
            places.len(),
            t,
            names[t.asset as int]@,
        )
    }
}

/// Every trade is of a coin that has a name.
pub open spec fn named(trades: Seq<Trade>, names: Seq<String>) -> bool {
    forall|i: int| 0 <= i < trades.len() ==> (#[trigger] trades[i]).asset < names.len()
}

fn trades_lines(trades: &Vec<Trade>, names: &Vec<String>, places: &Vec<usize>) -> (r: Vec<String>)
    requires
        named(trades@, names@),
        forall|i: int| 0 <= i < places@.len() ==> (#[trigger] places@[i]) < trades@.len(),
    ensures
        texts(r@) == trades_text(trades@, names@, places@),
{
    let mut out: Vec<String> = Vec::new();
    let n: usize = places.len();
    let mut i: usize = 0;
    assert(places@.take(0) =~= Seq::<usize>::empty());
    assert(texts(out@) =~= Seq::<Seq<char>>::empty());
    while i < n
        invariant
            n == places@.len(),
            i <= n,
            named(trades@, names@),
            forall|k: int| 0 <= k < places@.len() ==> (#[trigger] places@[k]) < trades@.len(),
            texts(out@) == trades_text(trades@, names@, places@.take(i as int)),
        decreases n - i,
    {
        let t: Trade = trades[places[i]];
        assert(places@.take(i + 1).drop_last() =~= places@.take(i as int));
        assert(trades@[places@[i as int] as int].asset < names@.len());
        let mut own = trade_lines(i + 1, &t, names[t.asset].as_str());
        let ghost before = out@;
        let ghost added = own@;
        out.append(&mut own);
        assert(texts(out@) =~= texts(before) + texts(added));
        i = i + 1;
    }
    assert(places@.take(n as int) =~= places@);
    out
}

/// What a report says of the trades.
pub struct Findings {
    pub summary: Summary,
    /// The results, the costs and the returns with costs.
    pub figures: Vec<String>,
    /// The best trades after costs.
    pub best_trades: Vec<String>,
    /// The worst trades after costs.
    pub worst_trades: Vec<String>,
    pub by_asset: Vec<GroupRow>,
    pub by_tier: Vec<GroupRow>,
    pub by_reason: Vec<ReasonRow>,
}

/// A report on a backtest.
pub struct Report {
    pub head: Vec<String>,
    /// None where there was no trade: the head then says so.
    pub findings: Option<Findings>,
}

/// The results, the costs and the returns with costs.
pub open spec fn figures_text(
    trades: Seq<Trade>,
    names: Seq<String>,
    args: BacktestArgs,
    s: Summary,
) -> Seq<Seq<char>> {
    let best = trades[s.best as int];
    let worst = trades[s.worst as int];
    results_text(
        s,
        best,
        names[best.asset as int]@,
        worst,
        names[worst.asset as int]@,
        args.days as nat,
    ) + cost_text(s, args) + adjusted_text(s, args.hold_hours as nat)
}

pub open spec fn findings_ok(
    f: Findings,
    trades: Seq<Trade>,
    names: Seq<String>,
    args: BacktestArgs,
    start_ms: int,
    end_ms: int,
) -> bool {
    &&& f.summary == summary_of(trades, args, start_ms, end_ms)
    &&& texts(f.figures@) == figures_text(trades, names, args, f.summary)
    &&& texts(f.best_trades@) == trades_text(trades, names, top_five(trades))
    &&& texts(f.worst_trades@) == trades_text(trades, names, bottom_five(trades))
    &&& f.by_asset@ == asset_rows(trades)
    &&& f.by_tier@ == tier_rows(trades)
    &&& f.by_reason@ == reason_rows_until(trades, 3)
}

fn write_figures(trades: &Vec<Trade>, names: &Vec<String>, args: &BacktestArgs, s: &Summary) -> (r:
    Vec<String>)
    requires
        named(trades@, names@),
        s.best < trades@.len(),
        s.worst < trades@.len(),
    ensures
        texts(r@) == figures_text(trades@, names@, *args, *s),
{
    let best: Trade = trades[s.best];
    let worst: Trade = trades[s.worst];
    assert(trades@[s.best as int].asset < names@.len());
    assert(trades@[s.worst as int].asset < names@.len());
    let mut out = results_lines(
        s,
        &best,
        names[best.asset].as_str(),
        &worst,
        names[worst.asset].as_str(),
        args.days,
    );
    let mut costs = cost_lines(s, args);
    let mut adjusted = adjusted_lines(s, args.hold_hours);
    let ghost a = out@;
    let ghost b = costs@;
    let ghost c = adjusted@;
    out.append(&mut costs);
    out.append(&mut adjusted);
    assert(texts(out@) =~= texts(a) + texts(b) + texts(c));
    out
}

/// The places of the best and of the worst trades after costs.
fn extremes(trades: &Vec<Trade>) -> (r: (Vec<usize>, Vec<usize>))
    ensures
        r.0@ == top_five(trades@),
        r.1@ == bottom_five(trades@),
        forall|i: int| 0 <= i < r.0@.len() ==> (#[trigger] r.0@[i]) < trades@.len(),
        forall|i: int| 0 <= i < r.1@.len() ==> (#[trigger] r.1@[i]) < trades@.len(),
{
    let order = by_falling_value(&list_figures(trades, Figure::Net));
    let n: usize = trades.len();
    let count: usize = if n < 5 {
        n
    } else {
        5
    };
    let mut best: Vec<usize> = Vec::new();
    let mut worst: Vec<usize> = Vec::new();
    let mut i: usize = 0;
    while i < count
        invariant
            n == trades@.len(),
            n == order@.len(),
            i <= count <= n,
            order@ == by_net(trades@),
            forall|k: int| 0 <= k < n ==> (#[trigger] order@[k]) < n,
            best@ == order@.take(i as int),
            worst@ == Seq::new(i as nat, |k: int| order@[n - 1 - k]),
        decreases count - i,
    {
        best.push(order[i]);
        worst.push(order[n - 1 - i]);
        i = i + 1;
        assert(best@ =~= order@.take(i as int));
        assert(worst@ =~= Seq::new(i as nat, |k: int| order@[n - 1 - k]));
    }
    assert(worst@ =~= bottom_five(trades@));
    (best, worst)
}

/// The report on a backtest. `names` holds the names of the coins by their places.
pub fn report(
    trades: &Vec<Trade>,
    names: &Vec<String>,
    args: &BacktestArgs,
    start_ms: i64,
    end_ms: i64,
) -> (r: Report)
    requires
        named(trades@, names@),
        comparable(trades@),
    ensures
        trades@.len() == 0 ==> {
            &&& r.findings is None
            &&& texts(r.head@) == head_text(*args, start_ms as int, end_ms as int)
                + no_trades_text()
        },
        trades@.len() > 0 ==> {
            &&& texts(r.head@) == head_text(*args, start_ms as int, end_ms as int)
            &&& r.findings matches Some(f)
            &&& findings_ok(f, trades@, names@, *args, start_ms as int, end_ms as int)
        },
{
    let mut head = head_lines(args, start_ms, end_ms);
    if trades.len() == 0 {
        let mut reasons = no_trades_lines();
        let ghost a = head@;
        let ghost b = reasons@;
        head.append(&mut reasons);
        assert(texts(head@) =~= texts(a) + texts(b));
        return Report { head, findings: None };
    }
    let summary = summarize(trades, args, start_ms, end_ms);
    let figures = write_figures(trades, names, args, &summary);
    let (best, worst) = extremes(trades);
    let findings = Findings {
        summary,
        figures,
        best_trades: trades_lines(trades, names, &best),
        worst_trades: trades_lines(trades, names, &worst),
        by_asset: rows_by_asset(trades),
        by_tier: rows_by_tier(trades),
        by_reason: rows_by_reason(trades),
    };
    Report { head, findings: Some(findings) }
}

// The cells of the tables.

/// Whether an amount is shown as a gain.
pub open spec fn gains_tone(amount: Binary64) -> bool {
    amount.reaches(0)
}

/// Whether an amount is shown as a gain: zero is, and what has no value is not.
pub fn is_gain(amount: Binary64) -> (r: bool)
    ensures
        r == gains_tone(amount),
{
    amount.is_reaching(0)
}

pub open spec fn asset_cells_text(row: GroupRow, name: Seq<char>) -> Seq<Seq<char>> {
    seq![
        name,
        decimal(row.trades as nat),
        fixed(row.win_pct, 0, false) + "%"@,
        "$"@ + fixed(row.gross, 2, true),
        "$"@ + fixed(row.avg, 2, true),
        "$"@ + fixed(row.net, 2, true),
    ]
}

/// The cells of a coin: its name, the trades, the share of gains, the result before costs, that
/// of a trade, and the result after costs.
pub fn asset_cells(row: &GroupRow, name: &str) -> (r: Vec<String>)
    ensures
        texts(r@) == asset_cells_text(*row, name@),
{
    let mut lines: Vec<String> = Vec::new();
    let l = text(name);
    lines.push(l);
    let mut l = String::new();
    append_decimal(&mut l, row.trades as u128);
    assert(l@ =~= decimal(row.trades as nat));
    lines.push(l);
    let mut l = String::new();
    append_fixed(&mut l, row.win_pct, 0, false);
    assert(l@ =~= fixed(row.win_pct, 0, false));
    l.append("%");
    lines.push(l);
    let mut l = text("$");
    append_fixed(&mut l, row.gross, 2, true);
    lines.push(l);
    let mut l = text("$");
    append_fixed(&mut l, row.avg, 2, true);
    lines.push(l);
    let mut l = text("$");
    append_fixed(&mut l, row.net, 2, true);
    lines.push(l);
    assert(texts(lines@) =~= asset_cells_text(*row, name@));
    lines
}

pub open spec fn tier_cells_text(row: GroupRow, name: Seq<char>) -> Seq<Seq<char>> {
    seq![
        name,
        decimal(row.trades as nat),
        fixed(row.win_pct, 0, false) + "%"@,
        "$"@ + fixed(row.gross, 2, true),
        "$"@ + fixed(row.avg, 2, true),
        "$"@ + fixed(row.net, 2, true),
        fixed(row.net_win_pct, 0, false) + "%"@,
    ]
}

/// The cells of a tier: its name, the trades, the share of gains, the result before costs, that
/// of a trade, the result after costs and the share of gains after costs.
pub fn tier_cells(row: &GroupRow, name: &str) -> (r: Vec<String>)
    ensures
        texts(r@) == tier_cells_text(*row, name@),
{
    let mut lines: Vec<String> = Vec::new();
    let l = text(name);
    lines.push(l);
    let mut l = String::new();
    append_decimal(&mut l, row.trades as u128);
    assert(l@ =~= decimal(row.trades as nat));
    lines.push(l);
    let mut l = String::new();
    append_fixed(&mut l, row.win_pct, 0, false);
    assert(l@ =~= fixed(row.win_pct, 0, false));
    l.append("%");
    lines.push(l);
    let mut l = text("$");
    append_fixed(&mut l, row.gross, 2, true);
    lines.push(l);
    let mut l = text("$");
    append_fixed(&mut l, row.avg, 2, true);
    lines.push(l);
    let mut l = text("$");
    append_fixed(&mut l, row.net, 2, true);
    lines.push(l);
    let mut l = String::new();
    append_fixed(&mut l, row.net_win_pct, 0, false);
    assert(l@ =~= fixed(row.net_win_pct, 0, false));
    l.append("%");
    lines.push(l);
    assert(texts(lines@) =~= tier_cells_text(*row, name@));
    lines
}
} // verus!
