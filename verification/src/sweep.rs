//! Backtests over a grid of parameters, and what they have to say.

use crate::backtest::{exit_strategy_label, exit_strategy_text};
use crate::backtest::{AssetSnap, BacktestArgs, CliExitStrategy, CliTier, CoinSeries, Trade};
use crate::binary64::{Binary64, INFINITE};
use crate::decimal::{
    append_decimal, append_fixed, count_text, decimal, fixed, fixed_text, text, texts,
};
use crate::metrics::{
    count_gains, drawdown, figures, gains, list_figures, max_drawdown, per_year, return_on,
    return_pct, yearly, Figure,
};
use crate::order::{by_falling_value, descending, double_keys, index_of_best, last_best};
use crate::simulation::{
    histories_in_order, period_fits, simulate_on, simulated, snapshots, table_ok,
};
use crate::stats::{mean, mean_of, sum, sum_of};
use crate::summary::least;
use vstd::prelude::*;
use vstd::string::*;

verus! {

/// What a run with some parameters came to.
#[derive(Clone, Copy, Debug)]
pub struct ComboResult {
    pub use_maker: bool,
    /// Zero where entries did not ask for a rate.
    pub min_funding_apr: Binary64,
    pub hold_hours: u32,
    pub max_positions: usize,
    pub exit_strategy: CliExitStrategy,
    pub hysteresis_entry_apr: Binary64,
    pub hysteresis_exit_apr: Binary64,
    pub trades: usize,
    /// The share of trades that gained after costs.
    pub win_pct: Binary64,
    pub net_pnl: Binary64,
    pub gross_pnl: Binary64,
    pub total_costs: Binary64,
    /// After costs.
    pub max_drawdown: Binary64,
    /// Zero where there are no days.
    pub annualized_pct: Binary64,
}

pub open spec fn combo_of(trades: Seq<Trade>, args: BacktestArgs) -> ComboResult {
    let net = figures(trades, Figure::Net);
    ComboResult {
        use_maker: args.use_maker,
        min_funding_apr: match args.min_funding_apr {
            Some(apr) => apr,
            None => Binary64::whole(0),
        },
        hold_hours: args.hold_hours,
        max_positions: args.max_positions,
        exit_strategy: args.exit_strategy,
        hysteresis_entry_apr: args.hysteresis_entry_apr,
        hysteresis_exit_apr: args.hysteresis_exit_apr,
        trades: trades.len() as usize,
        win_pct: if trades.len() > 0 {
            Binary64::whole(100).times_spec(Binary64::whole(gains(net) as int)).over_spec(
                Binary64::whole(trades.len() as int),
            )
        } else {
            Binary64::whole(0)
        },
        net_pnl: sum_of(net),
        gross_pnl: sum_of(figures(trades, Figure::Gross)),
        total_costs: sum_of(figures(trades, Figure::BothCosts)),
        max_drawdown: drawdown(trades, Figure::Net),
        annualized_pct: if args.days > 0 {
            per_year(return_on(sum_of(net), args.capital), args.days as nat)
        } else {
            Binary64::whole(0)
        },
    }
}

/// What the trades of a run came to.
pub fn compute_combo_result(trades: &Vec<Trade>, args: &BacktestArgs) -> (r: ComboResult)
    ensures
        r == combo_of(trades@, *args),
{
    let net = list_figures(trades, Figure::Net);
    let net_pnl = sum(&net);
    let n: usize = trades.len();
    let win_pct = if n > 0 {
        Binary64::from_whole(100).times(Binary64::from_count(count_gains(&net))).over(
            Binary64::from_count(n),
        )
    } else {
        Binary64::from_whole(0)
    };
    let annualized_pct = if args.days > 0 {
        yearly(return_pct(net_pnl, args.capital), args.days)
    } else {
        Binary64::from_whole(0)
    };
    ComboResult {
        use_maker: args.use_maker,
        min_funding_apr: match args.min_funding_apr {
            Some(apr) => apr,
            None => Binary64::from_whole(0),
        },
        hold_hours: args.hold_hours,
        max_positions: args.max_positions,
        exit_strategy: args.exit_strategy,
        hysteresis_entry_apr: args.hysteresis_entry_apr,
        hysteresis_exit_apr: args.hysteresis_exit_apr,
        trades: n,
        win_pct,
        net_pnl,
        gross_pnl: sum(&list_figures(trades, Figure::Gross)),
        total_costs: sum(&list_figures(trades, Figure::BothCosts)),
        max_drawdown: max_drawdown(trades, Figure::Net),
        annualized_pct,
    }
}

// The grid.

/// The parameters that every run shares: a spread of 20 basis points, fees of 4.5 and 1.5, a
/// slippage of 10.
pub open spec fn shared_args(days: u32, capital: Binary64) -> BacktestArgs {
    BacktestArgs {
        days,
        capital,
        max_positions: 3,
        min_tier: CliTier::Medium,
        hold_hours: 24,
        spread_bps: Binary64::whole(20),
        taker_fee_bps: Binary64::ratio(45, 10),
        maker_fee_bps: Binary64::ratio(15, 10),
        use_maker: true,
        slippage_bps: Binary64::whole(10),
        min_funding_apr: None,
        exit_strategy: CliExitStrategy::Hysteresis,
        hysteresis_entry_apr: Binary64::whole(100),
        hysteresis_exit_apr: Binary64::whole(50),
    }
}

pub open spec fn strategy_at(i: int) -> CliExitStrategy {
    if i == 0 {
        CliExitStrategy::Std
    } else if i == 1 {
        CliExitStrategy::MaxHoldOnly
    } else {
        CliExitStrategy::Hysteresis
    }
}

/// The `i`-th run of the main grid: both ways of entering, the rates 50, 100, 150 and 200, the
/// holding times 6, 12 and 24, the limits 1, 3 and 5, and the three strategies, the last of these
/// turning fastest.
pub open spec fn main_args(days: u32, capital: Binary64, i: int) -> BacktestArgs {
    let apr = Binary64::whole(50 * ((i / 27) % 4 + 1));
    BacktestArgs {
        max_positions: (2 * ((i / 3) % 3) + 1) as usize,
        hold_hours: if (i / 9) % 3 == 0 {
            6
        } else if (i / 9) % 3 == 1 {
            12
        } else {
            24
        },
        use_maker: i / 108 == 1,
        min_funding_apr: Some(apr),
        exit_strategy: strategy_at(i % 3),
        hysteresis_entry_apr: apr,
        hysteresis_exit_apr: Binary64::whole(50),
        ..shared_args(days, capital)
    }
}

/// The `i`-th run of the grid of thresholds: the holding times 24 and 48, the thresholds 100, 150
/// and 200 of entry and 25 and 50 of exit, with limit orders and three positions.
pub open spec fn threshold_args(days: u32, capital: Binary64, i: int) -> BacktestArgs {
    BacktestArgs {
        hold_hours: if i / 6 == 0 {
            24
        } else {
            48
        },
        hysteresis_entry_apr: Binary64::whole(50 * ((i / 2) % 3 + 2)),
        hysteresis_exit_apr: Binary64::whole(25 * (i % 2 + 1)),
        ..shared_args(days, capital)
    }
}

/// The number of runs of the main grid.
pub const MAIN_RUNS: usize = 216;

/// The number of runs of the grid of thresholds.
pub const THRESHOLD_RUNS: usize = 12;

/// All runs of a sweep, in their order.
pub open spec fn all_args(days: u32, capital: Binary64) -> Seq<BacktestArgs> {
    Seq::new(MAIN_RUNS as nat, |i: int| main_args(days, capital, i)) + Seq::new(
        THRESHOLD_RUNS as nat,
        |i: int| threshold_args(days, capital, i),
    )
}

fn shared(days: u32, capital: Binary64) -> (r: BacktestArgs)
    ensures
        r == shared_args(days, capital),
{
    BacktestArgs {
        days,
        capital,
        max_positions: 3,
        min_tier: CliTier::Medium,
        hold_hours: 24,
        spread_bps: Binary64::from_whole(20),
        taker_fee_bps: Binary64::from_ratio(45, 10),
        maker_fee_bps: Binary64::from_ratio(15, 10),
        use_maker: true,
        slippage_bps: Binary64::from_whole(10),
        min_funding_apr: None,
        exit_strategy: CliExitStrategy::Hysteresis,
        hysteresis_entry_apr: Binary64::from_whole(100),
        hysteresis_exit_apr: Binary64::from_whole(50),
    }
}

fn main_run(days: u32, capital: Binary64, i: usize) -> (r: BacktestArgs)
    requires
        i < MAIN_RUNS,
    ensures
        r == main_args(days, capital, i as int),
{
    let apr = Binary64::from_whole(50 * ((i / 27) % 4 + 1) as i64);
    BacktestArgs {
        max_positions: 2 * ((i / 3) % 3) + 1,
        hold_hours: if (i / 9) % 3 == 0 {
            6
        } else if (i / 9) % 3 == 1 {
            12
        } else {
            24
        },
        use_maker: i / 108 == 1,
        min_funding_apr: Some(apr),
        exit_strategy: if i % 3 == 0 {
            CliExitStrategy::Std
        } else if i % 3 == 1 {
            CliExitStrategy::MaxHoldOnly
        } else {
            CliExitStrategy::Hysteresis
        },
        hysteresis_entry_apr: apr,
        hysteresis_exit_apr: Binary64::from_whole(50),
        ..shared(days, capital)
    }
}

fn threshold_run(days: u32, capital: Binary64, i: usize) -> (r: BacktestArgs)
    requires
        i < THRESHOLD_RUNS,
    ensures
        r == threshold_args(days, capital, i as int),
{
    BacktestArgs {
        hold_hours: if i / 6 == 0 {
            24
        } else {
            48
        },
        hysteresis_entry_apr: Binary64::from_whole(50 * ((i / 2) % 3 + 2) as i64),
        hysteresis_exit_apr: Binary64::from_whole(25 * (i % 2 + 1) as i64),
        ..shared(days, capital)
    }
}

/// The parameters of all runs of a sweep.
pub fn sweep_args(days: u32, capital: Binary64) -> (r: Vec<BacktestArgs>)
    ensures
        r@ == all_args(days, capital),
        r@.len() == 228,
{
    let mut out: Vec<BacktestArgs> = Vec::new();
    let mut i: usize = 0;
    while i < MAIN_RUNS
        invariant
            i <= MAIN_RUNS,
            out@ =~= Seq::new(i as nat, |k: int| main_args(days, capital, k)),
        decreases MAIN_RUNS - i,
    {
        out.push(main_run(days, capital, i));
        i = i + 1;
    }
    let ghost main = out@;
    let mut j: usize = 0;
    while j < THRESHOLD_RUNS
        invariant
            j <= THRESHOLD_RUNS,
            out@ =~= main + Seq::new(j as nat, |k: int| threshold_args(days, capital, k)),
        decreases THRESHOLD_RUNS - j,
    {
        out.push(threshold_run(days, capital, j));
        j = j + 1;
    }
    out
}

proof fn lemma_wholes_differ(a: int, b: int)
    requires
        0 <= a < 1000,
        0 <= b < 1000,
        a != b,
    ensures
        Binary64::whole(a) != Binary64::whole(b),
{
    let one = vstd::arithmetic::power2::pow2(crate::arithmetic::UNIT_EXPONENT as nat);
    vstd::arithmetic::power2::lemma_pow2_pos(crate::arithmetic::UNIT_EXPONENT as nat);
    crate::arithmetic::small_wholes_are_exact(a);
    crate::arithmetic::small_wholes_are_exact(b);
    assert(a * one != b * one) by (nonlinear_arith)
        requires
            a != b,
            one > 0,
    ;
}

/// The place of a run in the main grid, out of its places on the axes.
proof fn lemma_main_place(i: int)
    requires
        0 <= i < MAIN_RUNS,
    ensures
        i == 108 * (i / 108) + 27 * ((i / 27) % 4) + 9 * ((i / 9) % 3) + 3 * ((i / 3) % 3) + i % 3,
        0 <= i / 108 <= 1,
{
    assert(i / 9 == (i / 3) / 3);
    assert(i / 27 == (i / 9) / 3);
    assert(i / 108 == (i / 27) / 4);
}

proof fn lemma_main_differ(days: u32, capital: Binary64, i: int, j: int)
    requires
        0 <= i < j < MAIN_RUNS,
    ensures
        main_args(days, capital, i) != main_args(days, capital, j),
{
    let a = main_args(days, capital, i);
    let b = main_args(days, capital, j);
    lemma_main_place(i);
    lemma_main_place(j);
    if i / 108 != j / 108 {
        assert(a.use_maker != b.use_maker);
    } else if (i / 27) % 4 != (j / 27) % 4 {
        lemma_wholes_differ(50 * ((i / 27) % 4 + 1), 50 * ((j / 27) % 4 + 1));
        assert(a.hysteresis_entry_apr != b.hysteresis_entry_apr);
    } else if (i / 9) % 3 != (j / 9) % 3 {
        assert(a.hold_hours != b.hold_hours);
    } else if (i / 3) % 3 != (j / 3) % 3 {
        assert(a.max_positions != b.max_positions);
    } else {
        assert(a.exit_strategy != b.exit_strategy);
    }
}

proof fn lemma_thresholds_differ(days: u32, capital: Binary64, i: int, j: int)
    requires
        0 <= i < j < THRESHOLD_RUNS,
    ensures
        threshold_args(days, capital, i) != threshold_args(days, capital, j),
{
    let a = threshold_args(days, capital, i);
    let b = threshold_args(days, capital, j);
    if i / 6 != j / 6 {
        assert(a.hold_hours != b.hold_hours);
    } else if (i / 2) % 3 != (j / 2) % 3 {
        lemma_wholes_differ(50 * ((i / 2) % 3 + 2), 50 * ((j / 2) % 3 + 2));
        assert(a.hysteresis_entry_apr != b.hysteresis_entry_apr);
    } else {
        lemma_wholes_differ(25 * (i % 2 + 1), 25 * (j % 2 + 1));
        assert(a.hysteresis_exit_apr != b.hysteresis_exit_apr);
    }
}

/// No two runs of a sweep have the same parameters.
pub proof fn no_combination_is_tried_twice(days: u32, capital: Binary64, i: int, j: int)
    requires
        0 <= i < j < 228,
    ensures
        all_args(days, capital)[i] != all_args(days, capital)[j],
{
    let all = all_args(days, capital);
    if j < MAIN_RUNS {
        assert(all[i] == main_args(days, capital, i) && all[j] == main_args(days, capital, j));
        lemma_main_differ(days, capital, i, j);
    } else if i >= MAIN_RUNS {
        assert(all[i] == threshold_args(days, capital, i - MAIN_RUNS));
        assert(all[j] == threshold_args(days, capital, j - MAIN_RUNS));
        lemma_thresholds_differ(days, capital, i - MAIN_RUNS, j - MAIN_RUNS);
    } else {
        assert(all[i].min_funding_apr is Some);
        assert(all[j].min_funding_apr is None);
    }
}

/// One run of a sweep, over a table of readings that all runs share.
pub fn run_combo(
    table: &Vec<Vec<Option<AssetSnap>>>,
    series: &Vec<CoinSeries>,
    args: &BacktestArgs,
    start_ms: i64,
    end_ms: i64,
) -> (r: ComboResult)
    requires
        histories_in_order(series@),
        period_fits(start_ms as int, end_ms as int),
        table_ok(table@, series@, start_ms as int, end_ms as int),
    ensures
        r == combo_of(simulated(*args, series@, start_ms as int, end_ms as int), *args),
{
    let trades = simulate_on(table, series, args, start_ms, end_ms);
    compute_combo_result(&trades, args)
}

/// All runs of a sweep, in their order.
pub fn run_all(
    series: &Vec<CoinSeries>,
    days: u32,
    capital: Binary64,
    start_ms: i64,
    end_ms: i64,
) -> (r: Vec<ComboResult>)
    requires
        histories_in_order(series@),
        period_fits(start_ms as int, end_ms as int),
    ensures
        r@.len() == 228,
        forall|i: int|
            0 <= i < 228 ==> #[trigger] r@[i] == combo_of(
                simulated(
                    all_args(days, capital)[i],
                    series@,
                    start_ms as int,
                    end_ms as int,
                ),
                all_args(days, capital)[i],
            ),
{
    let table: Vec<Vec<Option<AssetSnap>>> = snapshots(series, start_ms, end_ms);
    let all: Vec<BacktestArgs> = sweep_args(days, capital);
    let n: usize = all.len();
    let mut out: Vec<ComboResult> = Vec::new();
    let mut k: usize = 0;
    while k < n
        invariant
            n == 228,
            all@.len() == n,
            all@ == all_args(days, capital),
            k <= n,
            out@.len() == k,
            histories_in_order(series@),
            period_fits(start_ms as int, end_ms as int),
            table_ok(table@, series@, start_ms as int, end_ms as int),
            forall|i: int|
                0 <= i < k ==> #[trigger] out@[i] == combo_of(
                    simulated(
                        all_args(days, capital)[i],
                        series@,
                        start_ms as int,
                        end_ms as int,
                    ),
                    all_args(days, capital)[i],
                ),
        decreases n - k,
    {
        out.push(run_combo(&table, series, &all[k], start_ms, end_ms));
        k = k + 1;
    }
    out
}

/// The parameters of a run, out of what it came to. Under `Hysteresis` the threshold of entry
/// stands in for the rate.
pub open spec fn args_again(c: ComboResult, days: u32, capital: Binary64) -> BacktestArgs {
    BacktestArgs {
        max_positions: c.max_positions,
        hold_hours: c.hold_hours,
        use_maker: c.use_maker,
        min_funding_apr: if c.exit_strategy == CliExitStrategy::Hysteresis {
            None
        } else {
            Some(c.min_funding_apr)
        },
        exit_strategy: c.exit_strategy,
        hysteresis_entry_apr: c.hysteresis_entry_apr,
        hysteresis_exit_apr: c.hysteresis_exit_apr,
        ..shared_args(days, capital)
    }
}

/// The results after costs.
pub open spec fn nets(results: Seq<ComboResult>) -> Seq<Binary64> {
    results.map_values(|c: ComboResult| c.net_pnl)
}

fn list_nets(results: &Vec<ComboResult>) -> (r: Vec<Binary64>)
    ensures
        r@ == nets(results@),
{
    let mut out: Vec<Binary64> = Vec::new();
    let n: usize = results.len();
    let mut i: usize = 0;
    while i < n
        invariant
            n == results@.len(),
            i <= n,
            out@ == nets(results@.take(i as int)),
        decreases n - i,
    {
        out.push(results[i].net_pnl);
        i = i + 1;
        assert(out@ =~= nets(results@.take(i as int)));
    }
    assert(results@.take(n as int) =~= results@);
    out
}

/// The parameters of the best run, the last of equals; none where there is no run.
pub fn best_args(results: &Vec<ComboResult>, days: u32, capital: Binary64) -> (r: Option<
    BacktestArgs,
>)
    ensures
        results@.len() == 0 ==> r is None,
        results@.len() > 0 ==> r == Some(
            args_again(results@[last_best(nets(results@))], days, capital),
        ),
{
    if results.len() == 0 {
        return None;
    }
    let best = results[index_of_best(&list_nets(results))];
    Some(
        BacktestArgs {
            max_positions: best.max_positions,
            hold_hours: best.hold_hours,
            use_maker: best.use_maker,
            min_funding_apr: if best.exit_strategy == CliExitStrategy::Hysteresis {
                None
            } else {
                Some(best.min_funding_apr)
            },
            exit_strategy: best.exit_strategy,
            hysteresis_entry_apr: best.hysteresis_entry_apr,
            hysteresis_exit_apr: best.hysteresis_exit_apr,
            ..shared(days, capital)
        },
    )
}

/// A run that is repeated with the parameters that come back from it makes the same trades.
pub proof fn a_run_can_be_repeated(
    series: Seq<CoinSeries>,
    days: u32,
    capital: Binary64,
    i: int,
    start_ms: int,
    end_ms: int,
)
    requires
        0 <= i < 228,
    ensures
        ({
            let args = all_args(days, capital)[i];
            let trades = simulated(args, series, start_ms, end_ms);
            let again = args_again(combo_of(trades, args), days, capital);
            simulated(again, series, start_ms, end_ms) == trades
        }),
{
    let args = all_args(days, capital)[i];
    let trades = simulated(args, series, start_ms, end_ms);
    let again = args_again(combo_of(trades, args), days, capital);
    if args.exit_strategy == CliExitStrategy::Hysteresis {
        crate::trading_laws::unread_parameters_do_not_matter(args, again, series, start_ms, end_ms);
    }
}

// The ranking.

/// The runs, the best result after costs first; equal ones keep their order.
pub open spec fn ranking(results: Seq<ComboResult>) -> Seq<ComboResult> {
    descending(double_keys(nets(results))).map_values(|i: usize| results[i as int])
}

/// The runs, the best result after costs first.
pub fn rank_results(results: &Vec<ComboResult>) -> (r: Vec<ComboResult>)
    ensures
        r@ == ranking(results@),
        r@.len() == results@.len(),
{
    let order = by_falling_value(&list_nets(results));
    let n: usize = results.len();
    let mut out: Vec<ComboResult> = Vec::new();
    let mut i: usize = 0;
    while i < n
        invariant
            n == results@.len(),
            n == order@.len(),
            i <= n,
            forall|k: int| 0 <= k < n ==> (#[trigger] order@[k]) < n,
            out@ == order@.take(i as int).map_values(|k: usize| results@[k as int]),
        decreases n - i,
    {
        out.push(results[order[i]]);
        i = i + 1;
        assert(out@ =~= order@.take(i as int).map_values(|k: usize| results@[k as int]));
    }
    assert(order@.take(n as int) =~= order@);
    out
}

/// The first `count` of the ranking.
pub open spec fn top(sorted: Seq<ComboResult>, count: nat) -> Seq<ComboResult> {
    sorted.take(least(count, sorted.len()) as int)
}

/// The last `count` of the ranking, the last one first.
pub open spec fn bottom(sorted: Seq<ComboResult>, count: nat) -> Seq<ComboResult> {
    Seq::new(least(count, sorted.len()), |i: int| sorted[sorted.len() - 1 - i])
}

fn take_top(sorted: &Vec<ComboResult>, count: usize) -> (r: Vec<ComboResult>)
    ensures
        r@ == top(sorted@, count as nat),
{
    let mut out: Vec<ComboResult> = Vec::new();
    let n: usize = sorted.len();
    let mut i: usize = 0;
    while i < n && i < count
        invariant
            n == sorted@.len(),
            i <= n,
            i <= count,
            out@ =~= sorted@.take(i as int),
        decreases n - i,
    {
        out.push(sorted[i]);
        i = i + 1;
    }
    out
}

fn take_bottom(sorted: &Vec<ComboResult>, count: usize) -> (r: Vec<ComboResult>)
    ensures
        r@ == bottom(sorted@, count as nat),
{
    let mut out: Vec<ComboResult> = Vec::new();
    let n: usize = sorted.len();
    let mut i: usize = 0;
    while i < n && i < count
        invariant
            n == sorted@.len(),
            i <= n,
            i <= count,
            out@ =~= Seq::new(i as nat, |k: int| sorted@[sorted@.len() - 1 - k]),
        decreases n - i,
    {
        out.push(sorted[n - 1 - i]);
        i = i + 1;
    }
    out
}

/// The place of the first run of a strategy; the length where there is none.
pub open spec fn first_of(sorted: Seq<ComboResult>, s: CliExitStrategy) -> int
    decreases sorted.len(),
{
    if sorted.len() == 0 {
        0
    } else if sorted[0].exit_strategy == s {
        0
    } else {
        1 + first_of(sorted.skip(1), s)
    }
}

/// The best runs of the first `n` strategies that have one.
pub open spec fn best_until(sorted: Seq<ComboResult>, n: nat) -> Seq<ComboResult>
    decreases n,
{
    if n == 0 {
        Seq::empty()
    } else {
        let before = best_until(sorted, (n - 1) as nat);
        let k = first_of(sorted, strategy_at(n - 1));
        if k < sorted.len() {
            before.push(sorted[k])
        } else {
            before
        }
    }
}

fn strategy(i: usize) -> (r: CliExitStrategy)
    ensures
        r == strategy_at(i as int),
{
    if i == 0 {
        CliExitStrategy::Std
    } else if i == 1 {
        CliExitStrategy::MaxHoldOnly
    } else {
        CliExitStrategy::Hysteresis
    }
}

fn find_first(sorted: &Vec<ComboResult>, s: CliExitStrategy) -> (r: usize)
    ensures
        r == first_of(sorted@, s),
        r <= sorted@.len(),
{
    let n: usize = sorted.len();
    let mut i: usize = 0;
    assert(sorted@.skip(0) =~= sorted@);
    while i < n
        invariant
            n == sorted@.len(),
            i <= n,
            first_of(sorted@, s) == i + first_of(sorted@.skip(i as int), s),
        decreases n - i,
    {
        if sorted[i].exit_strategy == s {
            assert(first_of(sorted@.skip(i as int), s) == 0);
            return i;
        }
        assert(sorted@.skip(i as int).skip(1) =~= sorted@.skip(i + 1));
        i = i + 1;
    }
    i
}

/// The best run of each strategy that has one.
fn best_by_strategy(sorted: &Vec<ComboResult>) -> (r: Vec<ComboResult>)
    ensures
        r@ == best_until(sorted@, 3),
{
    let mut out: Vec<ComboResult> = Vec::new();
    let mut i: usize = 0;
    while i < 3
        invariant
            i <= 3,
            out@ == best_until(sorted@, i as nat),
        decreases 3 - i,
    {
        let k: usize = find_first(sorted, strategy(i));
        if k < sorted.len() {
            out.push(sorted[k]);
        }
        i = i + 1;
    }
    out
}

// Counts, thresholds and means.

/// How many runs are of a strategy.
pub open spec fn runs_of(results: Seq<ComboResult>, s: CliExitStrategy) -> nat
    decreases results.len(),
{
    if results.len() == 0 {
        0
    } else {
        runs_of(results.drop_last(), s) + (if results.last().exit_strategy == s {
            1nat
        } else {
            0
        })
    }
}

/// How many runs of a strategy gained after costs.
pub open spec fn gainers_of(results: Seq<ComboResult>, s: CliExitStrategy) -> nat
    decreases results.len(),
{
    if results.len() == 0 {
        0
    } else {
        gainers_of(results.drop_last(), s) + (if results.last().exit_strategy == s
            && results.last().net_pnl.above(0) {
            1nat
        } else {
            0
        })
    }
}

fn count_profitable(results: &Vec<ComboResult>, s: CliExitStrategy) -> (r: (usize, usize))
    ensures
        r.0 == gainers_of(results@, s),
        r.1 == runs_of(results@, s),
{
    let mut good: usize = 0;
    let mut all: usize = 0;
    let n: usize = results.len();
    let mut i: usize = 0;
    while i < n
        invariant
            n == results@.len(),
            good <= all <= i <= n,
            good == gainers_of(results@.take(i as int), s),
            all == runs_of(results@.take(i as int), s),
        decreases n - i,
    {
        assert(results@.take(i + 1).drop_last() =~= results@.take(i as int));
        if results[i].exit_strategy == s {
            all = all + 1;
            if results[i].net_pnl.is_above(0) {
                good = good + 1;
            }
        }
        i = i + 1;
    }
    assert(results@.take(n as int) =~= results@);
    (good, all)
}

/// The lowest rate of a run that gained after costs, among those that entered in a way; infinite
/// where there is none.
pub open spec fn lowest_rate(results: Seq<ComboResult>, use_maker: bool) -> Binary64
    decreases results.len(),
{
    if results.len() == 0 {
        Binary64 { bits: INFINITE }
    } else {
        let before = lowest_rate(results.drop_last(), use_maker);
        if results.last().use_maker == use_maker && results.last().net_pnl.above(0) {
            before.min_spec(results.last().min_funding_apr)
        } else {
            before
        }
    }
}

fn find_lowest(results: &Vec<ComboResult>, use_maker: bool) -> (r: Binary64)
    ensures
        r == lowest_rate(results@, use_maker),
{
    let mut low = Binary64 { bits: INFINITE };
    let n: usize = results.len();
    let mut i: usize = 0;
    while i < n
        invariant
            n == results@.len(),
            i <= n,
            low == lowest_rate(results@.take(i as int), use_maker),
        decreases n - i,
    {
        assert(results@.take(i + 1).drop_last() =~= results@.take(i as int));
        if results[i].use_maker == use_maker && results[i].net_pnl.is_above(0) {
            low = low.min(results[i].min_funding_apr);
        }
        i = i + 1;
    }
    assert(results@.take(n as int) =~= results@);
    low
}

/// What runs are grouped by.
#[derive(Clone, Copy, Debug, PartialEq, Eq, Structural)]
pub enum Axis {
    HoldHours,
    MaxPositions,
}

pub open spec fn key_of(c: ComboResult, axis: Axis) -> u64 {
    match axis {
        Axis::HoldHours => c.hold_hours as u64,
        Axis::MaxPositions => c.max_positions as u64,
    }
}

fn key(c: &ComboResult, axis: Axis) -> (r: u64)
    ensures
        r == key_of(*c, axis),
{
    match axis {
        Axis::HoldHours => c.hold_hours as u64,
        Axis::MaxPositions => c.max_positions as u64,
    }
}

/// The keys of the runs, each once, in the order in which they first occur.
pub open spec fn keys_of(results: Seq<ComboResult>, axis: Axis) -> Seq<u64>
    decreases results.len(),
{
    if results.len() == 0 {
        Seq::empty()
    } else {
        let before = keys_of(results.drop_last(), axis);
        let k = key_of(results.last(), axis);
        if before.contains(k) {
            before
        } else {
            before.push(k)
        }
    }
}

/// The results after costs of the runs with a key.
pub open spec fn nets_with(results: Seq<ComboResult>, axis: Axis, k: u64) -> Seq<Binary64>
    decreases results.len(),
{
    if results.len() == 0 {
        Seq::empty()
    } else {
        let before = nets_with(results.drop_last(), axis, k);
        if key_of(results.last(), axis) == k {
            before.push(results.last().net_pnl)
        } else {
            before
        }
    }
}

/// The mean result after costs of the runs with a key.
#[derive(Clone, Copy, Debug)]
pub struct AverageRow {
    pub key: u64,
    pub avg: Binary64,
    pub count: usize,
}

pub open spec fn average_row(results: Seq<ComboResult>, axis: Axis, k: u64) -> AverageRow {
    let xs = nets_with(results, axis, k);
    AverageRow { key: k, avg: mean_of(xs), count: xs.len() as usize }
}

pub open spec fn unsorted_averages(results: Seq<ComboResult>, axis: Axis) -> Seq<AverageRow> {
    keys_of(results, axis).map_values(|k: u64| average_row(results, axis, k))
}

pub open spec fn averages_only(rows: Seq<AverageRow>) -> Seq<Binary64> {
    rows.map_values(|r: AverageRow| r.avg)
}

/// The means by a key, the best first.
pub open spec fn averages(results: Seq<ComboResult>, axis: Axis) -> Seq<AverageRow> {
    let rows = unsorted_averages(results, axis);
    descending(double_keys(averages_only(rows))).map_values(|i: usize| rows[i as int])
}

fn has_key(keys: &Vec<u64>, k: u64) -> (r: bool)
    ensures
        r == keys@.contains(k),
{
    let n: usize = keys.len();
    let mut i: usize = 0;
    while i < n
        invariant
            n == keys@.len(),
            i <= n,
            forall|j: int| 0 <= j < i ==> #[trigger] keys@[j] != k,
        decreases n - i,
    {
        if keys[i] == k {
            assert(keys@[i as int] == k);
            return true;
        }
        i = i + 1;
    }
    false
}

fn list_keys(results: &Vec<ComboResult>, axis: Axis) -> (r: Vec<u64>)
    ensures
        r@ == keys_of(results@, axis),
{
    let mut out: Vec<u64> = Vec::new();
    let n: usize = results.len();
    let mut i: usize = 0;
    while i < n
        invariant
            n == results@.len(),
            i <= n,
            out@ == keys_of(results@.take(i as int), axis),
        decreases n - i,
    {
        assert(results@.take(i + 1).drop_last() =~= results@.take(i as int));
        let k: u64 = key(&results[i], axis);
        if !has_key(&out, k) {
            out.push(k);
        }
        i = i + 1;
    }
    assert(results@.take(n as int) =~= results@);
    out
}

fn average_with(results: &Vec<ComboResult>, axis: Axis, k: u64) -> (r: AverageRow)
    ensures
        r == average_row(results@, axis, k),
{
    let mut xs: Vec<Binary64> = Vec::new();
    let n: usize = results.len();
    let mut i: usize = 0;
    while i < n
        invariant
            n == results@.len(),
            i <= n,
            xs@ == nets_with(results@.take(i as int), axis, k),
        decreases n - i,
    {
        assert(results@.take(i + 1).drop_last() =~= results@.take(i as int));
        if key(&results[i], axis) == k {
            xs.push(results[i].net_pnl);
        }
        i = i + 1;
    }
    assert(results@.take(n as int) =~= results@);
    AverageRow { key: k, avg: mean(&xs), count: xs.len() }
}

/// The means by a key, the best first.
pub fn list_averages(results: &Vec<ComboResult>, axis: Axis) -> (r: Vec<AverageRow>)
    ensures
        r@ == averages(results@, axis),
{
    let keys = list_keys(results, axis);
    let mut rows: Vec<AverageRow> = Vec::new();
    let mut values: Vec<Binary64> = Vec::new();
    let n: usize = keys.len();
    let mut i: usize = 0;
    while i < n
        invariant
            n == keys@.len(),
            i <= n,
            rows@ == keys@.take(i as int).map_values(|k: u64| average_row(results@, axis, k)),
            values@ == averages_only(rows@),
        decreases n - i,
    {
        let row = average_with(results, axis, keys[i]);
        values.push(row.avg);
        rows.push(row);
        i = i + 1;
        assert(values@ =~= averages_only(rows@));
        assert(rows@ =~= keys@.take(i as int).map_values(
            |k: u64| average_row(results@, axis, k),
        ));
    }
    assert(keys@.take(n as int) =~= keys@);
    let order = by_falling_value(&values);
    let mut out: Vec<AverageRow> = Vec::new();
    let mut j: usize = 0;
    while j < n
        invariant
            n == rows@.len(),
            n == order@.len(),
            j <= n,
            forall|k: int| 0 <= k < n ==> (#[trigger] order@[k]) < n,
            out@ == order@.take(j as int).map_values(|k: usize| rows@[k as int]),
        decreases n - j,
    {
        out.push(rows[order[j]]);
        j = j + 1;
        assert(out@ =~= order@.take(j as int).map_values(|k: usize| rows@[k as int]));
    }
    assert(order@.take(n as int) =~= order@);
    out
}

// Texts.

pub open spec fn spaces(n: nat) -> Seq<char>
    decreases n,
{
    if n == 0 {
        Seq::empty()
    } else {
        spaces((n - 1) as nat) + " "@
    }
}

pub open spec fn missing(s: Seq<char>, width: nat) -> nat {
    if s.len() < width {
        (width - s.len()) as nat
    } else {
        0
    }
}

/// A text, moved to the right end of a column.
pub open spec fn right(s: Seq<char>, width: nat) -> Seq<char> {
    spaces(missing(s, width)) + s
}

/// A text, filled up to the width of a column.
pub open spec fn left(s: Seq<char>, width: nat) -> Seq<char> {
    s + spaces(missing(s, width))
}

fn blank(n: usize) -> (r: String)
    ensures
        r@ == spaces(n as nat),
{
    let mut out = String::new();
    let mut i: usize = 0;
    assert(out@ =~= spaces(0));
    while i < n
        invariant
            i <= n,
            out@ == spaces(i as nat),
        decreases n - i,
    {
        out.append(" ");
        i = i + 1;
    }
    out
}

fn pad_left(s: String, width: usize) -> (r: String)
    ensures
        r@ == right(s@, width as nat),
{
    let len: usize = s.as_str().unicode_len();
    let gap: usize = if len < width {
        width - len
    } else {
        0
    };
    let mut out = blank(gap);
    out.append(s.as_str());
    out
}

fn pad_right(s: String, width: usize) -> (r: String)
    ensures
        r@ == left(s@, width as nat),
{
    let len: usize = s.as_str().unicode_len();
    let gap: usize = if len < width {
        width - len
    } else {
        0
    };
    let fill = blank(gap);
    let mut out = s;
    out.append(fill.as_str());
    out
}

pub open spec fn bool_text(b: bool) -> Seq<char> {
    if b {
        "true"@
    } else {
        "false"@
    }
}

fn bool_str(b: bool) -> (r: &'static str)
    ensures
        r@ == bool_text(b),
{
    if b {
        "true"
    } else {
        "false"
    }
}

pub open spec fn maker_text(b: bool) -> Seq<char> {
    if b {
        "TRUE"@
    } else {
        "FALSE"@
    }
}

fn maker_str(b: bool) -> (r: &'static str)
    ensures
        r@ == maker_text(b),
{
    if b {
        "TRUE"
    } else {
        "FALSE"
    }
}

/// What a run asked of an entry.
pub open spec fn entry_rule(c: ComboResult) -> Seq<char> {
    if c.exit_strategy == CliExitStrategy::Hysteresis {
        "hyst_entry="@ + fixed(c.hysteresis_entry_apr, 0, false) + "% hyst_exit="@ + fixed(
            c.hysteresis_exit_apr,
            0,
            false,
        ) + "%"@
    } else {
        "min_apr="@ + fixed(c.min_funding_apr, 0, false) + "%"@
    }
}

fn entry_rule_text(c: &ComboResult) -> (r: String)
    ensures
        r@ == entry_rule(*c),
{
    if c.exit_strategy == CliExitStrategy::Hysteresis {
        let mut l = text("hyst_entry=");
        append_fixed(&mut l, c.hysteresis_entry_apr, 0, false);
        l.append("% hyst_exit=");
        append_fixed(&mut l, c.hysteresis_exit_apr, 0, false);
        l.append("%");
        l
    } else {
        let mut l = text("min_apr=");
        append_fixed(&mut l, c.min_funding_apr, 0, false);
        l.append("%");
        l
    }
}

/// The threshold of entry, as a table shows it.
pub open spec fn entry_cell(c: ComboResult) -> Seq<char> {
    if c.exit_strategy == CliExitStrategy::Hysteresis {
        fixed(c.hysteresis_entry_apr, 0, false)
    } else {
        fixed(c.min_funding_apr, 0, false)
    }
}

/// The threshold of exit, as a table shows it; only `Hysteresis` has one.
pub open spec fn exit_cell(c: ComboResult) -> Seq<char> {
    if c.exit_strategy == CliExitStrategy::Hysteresis {
        fixed(c.hysteresis_exit_apr, 0, false)
    } else {
        "—"@
    }
}

fn threshold_cells(c: &ComboResult) -> (r: (String, String))
    ensures
        r.0@ == entry_cell(*c),
        r.1@ == exit_cell(*c),
{
    if c.exit_strategy == CliExitStrategy::Hysteresis {
        (fixed_text(c.hysteresis_entry_apr, 0), fixed_text(c.hysteresis_exit_apr, 0))
    } else {
        (fixed_text(c.min_funding_apr, 0), text("—"))
    }
}

pub open spec fn sweep_head_text(days: nat, capital: Binary64) -> Seq<Seq<char>> {
    seq![
        ""@,
        "═══════════════ STRATEGY PARAMETER SWEEP ═══════════════"@,
        "Period: "@ + decimal(days as nat) + " days | Capital: $"@ + fixed(capital, 0, false)
            + " | Costs (taker round-trip): spread 20 + 2*taker 4.5 + 2*slip 10 = 49bps"@,
        "Costs (maker entry): spread 0 + maker 1.5 + slip 0 (entry) + 24.5bps (exit, taker) = 26bps round-trip"@,
        ""@,
    ]
}

/// The heading of a sweep.
pub fn sweep_head_lines(days: u32, capital: Binary64) -> (r: Vec<String>)
    ensures
        texts(r@) == sweep_head_text(days as nat, capital),
{
    let mut lines: Vec<String> = Vec::new();
    lines.push(text(""));
    lines.push(text("═══════════════ STRATEGY PARAMETER SWEEP ═══════════════"));
    let mut l = text("Period: ");
    append_decimal(&mut l, days as u128);
    l.append(" days | Capital: $");
    append_fixed(&mut l, capital, 0, false);
    l.append(" | Costs (taker round-trip): spread 20 + 2*taker 4.5 + 2*slip 10 = 49bps");
    lines.push(l);
    lines.push(text("Costs (maker entry): spread 0 + maker 1.5 + slip 0 (entry) + 24.5bps (exit, taker) = 26bps round-trip"));
    lines.push(text(""));
    assert(texts(lines@) =~= sweep_head_text(days as nat, capital));
    lines
}

pub open spec fn progress_text(
    place: nat,
    total: nat,
    args: BacktestArgs,
    c: ComboResult,
) -> Seq<char> {
    "  combo "@ + right(decimal(place), 3) + "/"@ + right(decimal(total), 3) + ": "@
        + left(exit_strategy_text(args.exit_strategy), 13) + " maker="@
        + left(bool_text(args.use_maker), 5) + " apr="@
        + right(fixed(c.min_funding_apr, 0, false), 3) + "% hold="@
        + right(decimal(args.hold_hours as nat), 2) + "h pos="@
        + decimal(args.max_positions as nat) + " → trades="@ + right(decimal(c.trades as nat), 3)
        + " net=$"@ + fixed(c.net_pnl, 2, true)
}

/// A line on a run of the main grid.
pub fn progress(
    place: usize,
    total: usize,
    args: &BacktestArgs,
    c: &ComboResult,
) -> (r: String)
    ensures
        r@ == progress_text(place as nat, total as nat, *args, *c),
{
    let number = pad_left(count_text(place), 3);
    let of = pad_left(count_text(total), 3);
    let strategy = pad_right(text(exit_strategy_label(args.exit_strategy)), 13);
    let maker = pad_right(text(bool_str(args.use_maker)), 5);
    let apr = pad_left(fixed_text(c.min_funding_apr, 0), 3);
    let hold = pad_left(count_text(args.hold_hours as usize), 2);
    let trades = pad_left(count_text(c.trades), 3);
    let mut l = text("  combo ");
    l.append(number.as_str());
    l.append("/");
    l.append(of.as_str());
    l.append(": ");
    l.append(strategy.as_str());
    l.append(" maker=");
    l.append(maker.as_str());
    l.append(" apr=");
    l.append(apr.as_str());
    l.append("% hold=");
    l.append(hold.as_str());
    l.append("h pos=");
    append_decimal(&mut l, args.max_positions as u128);
    l.append(" → trades=");
    l.append(trades.as_str());
    l.append(" net=$");
    append_fixed(&mut l, c.net_pnl, 2, true);
    l
}

pub open spec fn sub_progress_text(
    place: nat,
    total: nat,
    args: BacktestArgs,
    c: ComboResult,
) -> Seq<char> {
    "  combo "@ + right(decimal(place), 3) + "/"@ + right(decimal(total), 3)
        + ": hyst_sub    maker=true  hyst_entry="@
        + right(fixed(args.hysteresis_entry_apr, 0, false), 3) + "% hyst_exit="@
        + right(fixed(args.hysteresis_exit_apr, 0, false), 3) + "% hold="@
        + right(decimal(args.hold_hours as nat), 2) + "h pos=3 → trades="@
        + right(decimal(c.trades as nat), 3) + " net=$"@ + fixed(c.net_pnl, 2, true)
}

/// A line on a run of the grid of thresholds.
pub fn sub_progress(
    place: usize,
    total: usize,
    args: &BacktestArgs,
    c: &ComboResult,
) -> (r: String)
    ensures
        r@ == sub_progress_text(place as nat, total as nat, *args, *c),
{
    let number = pad_left(count_text(place), 3);
    let of = pad_left(count_text(total), 3);
    let entry = pad_left(fixed_text(args.hysteresis_entry_apr, 0), 3);
    let exit = pad_left(fixed_text(args.hysteresis_exit_apr, 0), 3);
    let hold = pad_left(count_text(args.hold_hours as usize), 2);
    let trades = pad_left(count_text(c.trades), 3);
    let mut l = text("  combo ");
    l.append(number.as_str());
    l.append("/");
    l.append(of.as_str());
    l.append(": hyst_sub    maker=true  hyst_entry=");
    l.append(entry.as_str());
    l.append("% hyst_exit=");
    l.append(exit.as_str());
    l.append("% hold=");
    l.append(hold.as_str());
    l.append("h pos=3 → trades=");
    l.append(trades.as_str());
    l.append(" net=$");
    append_fixed(&mut l, c.net_pnl, 2, true);
    l
}

/// The lines on all runs of a sweep, with a heading before those of the grid of thresholds.
pub open spec fn progress_lines_text(
    results: Seq<ComboResult>,
    days: u32,
    capital: Binary64,
) -> Seq<Seq<char>> {
    Seq::new(
        MAIN_RUNS as nat,
        |i: int| progress_text((i + 1) as nat, 228, all_args(days, capital)[i], results[i]),
    ) + seq!["--- Hysteresis sub-sweep (varied thresholds) ---"@] + Seq::new(
        THRESHOLD_RUNS as nat,
        |i: int|
            sub_progress_text(
                (MAIN_RUNS + i + 1) as nat,
                228,
                all_args(days, capital)[MAIN_RUNS + i],
                results[MAIN_RUNS + i],
            ),
    )
}

/// The lines on all runs of a sweep.
pub fn progress_lines(results: &Vec<ComboResult>, days: u32, capital: Binary64) -> (r: Vec<String>)
    requires
        results@.len() == 228,
    ensures
        texts(r@) == progress_lines_text(results@, days, capital),
{
    let all: Vec<BacktestArgs> = sweep_args(days, capital);
    let mut lines: Vec<String> = Vec::new();
    let ghost want = progress_lines_text(results@, days, capital);
    let mut i: usize = 0;
    while i < MAIN_RUNS
        invariant
            i <= MAIN_RUNS,
            all@ == all_args(days, capital),
            all@.len() == 228,
            results@.len() == 228,
            want == progress_lines_text(results@, days, capital),
            texts(lines@) == want.take(i as int),
        decreases MAIN_RUNS - i,
    {
        let ghost before = texts(lines@);
        let line = progress(i + 1, 228, &all[i], &results[i]);
        assert(line@ == want[i as int]);
        assert(want.take(i + 1) =~= before.push(line@));
        lines.push(line);
        assert(texts(lines@) =~= before.push(line@));
        i = i + 1;
    }
    lines.push(text("--- Hysteresis sub-sweep (varied thresholds) ---"));
    assert(texts(lines@) =~= want.take(MAIN_RUNS + 1));
    while i < 228
        invariant
            MAIN_RUNS <= i <= 228,
            all@ == all_args(days, capital),
            all@.len() == 228,
            results@.len() == 228,
            want == progress_lines_text(results@, days, capital),
            texts(lines@) == want.take(i + 1),
        decreases 228 - i,
    {
        let ghost before = texts(lines@);
        let line = sub_progress(i + 1, 228, &all[i], &results[i]);
        proof {
            let k = i - MAIN_RUNS;
            assert(want[i + 1] == sub_progress_text(
                (MAIN_RUNS + k + 1) as nat,
                228,
                all_args(days, capital)[MAIN_RUNS + k],
                results@[MAIN_RUNS + k],
            ));
        }
        assert(want.take(i + 2) =~= before.push(line@));
        lines.push(line);
        assert(texts(lines@) =~= before.push(line@));
        i = i + 1;
    }
    assert(want.take(229) =~= want);
    lines
}

pub open spec fn best_text(c: ComboResult) -> Seq<Seq<char>> {
    seq![
        "Best: strat="@ + exit_strategy_text(c.exit_strategy) + " | maker="@
            + bool_text(c.use_maker) + " | "@ + entry_rule(c) + " | hold="@
            + decimal(c.hold_hours as nat) + "h | max_pos="@ + decimal(c.max_positions as nat),
        "      Net $"@ + fixed(c.net_pnl, 2, true) + " | annualized "@
            + fixed(c.annualized_pct, 1, true) + "% | "@ + decimal(c.trades as nat)
            + " trades | "@ + fixed(c.win_pct, 0, false) + "% win | maxDD $"@
            + fixed(c.max_drawdown, 2, false),
    ]
}

/// The best run in two lines.
pub fn best_lines(c: &ComboResult) -> (r: Vec<String>)
    ensures
        texts(r@) == best_text(*c),
{
    let rule = entry_rule_text(c);
    let mut lines: Vec<String> = Vec::new();
    let mut l = text("Best: strat=");
    l.append(exit_strategy_label(c.exit_strategy));
    l.append(" | maker=");
    l.append(bool_str(c.use_maker));
    l.append(" | ");
    l.append(rule.as_str());
    l.append(" | hold=");
    append_decimal(&mut l, c.hold_hours as u128);
    l.append("h | max_pos=");
    append_decimal(&mut l, c.max_positions as u128);
    lines.push(l);
    let mut l = text("      Net $");
    append_fixed(&mut l, c.net_pnl, 2, true);
    l.append(" | annualized ");
    append_fixed(&mut l, c.annualized_pct, 1, true);
    l.append("% | ");
    append_decimal(&mut l, c.trades as u128);
    l.append(" trades | ");
    append_fixed(&mut l, c.win_pct, 0, false);
    l.append("% win | maxDD $");
    append_fixed(&mut l, c.max_drawdown, 2, false);
    lines.push(l);
    assert(texts(lines@) =~= best_text(*c));
    lines
}

pub open spec fn profitable_text(s: CliExitStrategy, good: nat, all: nat) -> Seq<char> {
    "Profitable combos for "@ + exit_strategy_text(s) + ": "@ + decimal(good as nat) + "/"@
        + decimal(all as nat)
}

/// How many runs of a strategy were profitable.
pub fn profitable(s: CliExitStrategy, good: usize, all: usize) -> (r: String)
    ensures
        r@ == profitable_text(s, good as nat, all as nat),
{
    let mut l = text("Profitable combos for ");
    l.append(exit_strategy_label(s));
    l.append(": ");
    append_decimal(&mut l, good as u128);
    l.append("/");
    append_decimal(&mut l, all as u128);
    l
}

pub open spec fn threshold_found_text(kind: Seq<char>, apr: Binary64) -> Seq<char> {
    "Lowest profitable APR threshold ("@ + kind + " entry): "@ + fixed(apr, 0, false) + "%"@
}

/// The lowest threshold that was profitable.
fn threshold_found(kind: &str, apr: Binary64) -> (r: String)
    ensures
        r@ == threshold_found_text(kind@, apr),
{
    let mut l = text("Lowest profitable APR threshold (");
    l.append(kind);
    l.append(" entry): ");
    append_fixed(&mut l, apr, 0, false);
    l.append("%");
    l
}

pub open spec fn threshold_missing_text(kind: Seq<char>) -> Seq<char> {
    "Lowest profitable APR threshold ("@ + kind + " entry): no profitable "@ + kind
        + " combo found"@
}

/// No threshold was profitable.
fn threshold_missing(kind: &str) -> (r: String)
    ensures
        r@ == threshold_missing_text(kind@),
{
    let mut l = text("Lowest profitable APR threshold (");
    l.append(kind);
    l.append(" entry): no profitable ");
    l.append(kind);
    l.append(" combo found");
    l
}

pub open spec fn average_text(row: AverageRow, unit: Seq<char>) -> Seq<char> {
    "  "@ + decimal(row.key as nat) + unit + ": $"@ + fixed(row.avg, 2, true) + "  ("@
        + decimal(row.count as nat) + " combos)"@
}

/// A mean by the hours held or by the positions allowed.
pub fn average(row: &AverageRow, unit: &str) -> (r: String)
    ensures
        r@ == average_text(*row, unit@),
{
    let mut l = text("  ");
    append_decimal(&mut l, row.key as u128);
    l.append(unit);
    l.append(": $");
    append_fixed(&mut l, row.avg, 2, true);
    l.append("  (");
    append_decimal(&mut l, row.count as u128);
    l.append(" combos)");
    l
}

pub open spec fn combo_cells_text(c: ComboResult) -> Seq<Seq<char>> {
    seq![
        exit_strategy_text(c.exit_strategy),
        maker_text(c.use_maker),
        entry_cell(c),
        exit_cell(c),
        decimal(c.hold_hours as nat),
        decimal(c.max_positions as nat),
        decimal(c.trades as nat),
        fixed(c.win_pct, 0, false) + "%"@,
        "$"@ + fixed(c.net_pnl, 2, true),
        fixed(c.annualized_pct, 1, true) + "%"@,
        "$"@ + fixed(c.max_drawdown, 2, false),
    ]
}

/// The cells of a run.
pub fn combo_cells(c: &ComboResult) -> (r: Vec<String>)
    ensures
        texts(r@) == combo_cells_text(*c),
{
    let (entry, exit) = threshold_cells(c);
    let mut lines: Vec<String> = Vec::new();
    let l = text(exit_strategy_label(c.exit_strategy));
    lines.push(l);
    let l = text(maker_str(c.use_maker));
    lines.push(l);
    let l = text(entry.as_str());
    lines.push(l);
    let l = text(exit.as_str());
    lines.push(l);
    let mut l = String::new();
    append_decimal(&mut l, c.hold_hours as u128);
    assert(l@ =~= decimal(c.hold_hours as nat));
    lines.push(l);
    let mut l = String::new();
    append_decimal(&mut l, c.max_positions as u128);
    assert(l@ =~= decimal(c.max_positions as nat));
    lines.push(l);
    let mut l = String::new();
    append_decimal(&mut l, c.trades as u128);
    assert(l@ =~= decimal(c.trades as nat));
    lines.push(l);
    let mut l = String::new();
    append_fixed(&mut l, c.win_pct, 0, false);
    assert(l@ =~= fixed(c.win_pct, 0, false));
    l.append("%");
    lines.push(l);
    let mut l = text("$");
    append_fixed(&mut l, c.net_pnl, 2, true);
    lines.push(l);
    let mut l = String::new();
    append_fixed(&mut l, c.annualized_pct, 1, true);
    assert(l@ =~= fixed(c.annualized_pct, 1, true));
    l.append("%");
    lines.push(l);
    let mut l = text("$");
    append_fixed(&mut l, c.max_drawdown, 2, false);
    lines.push(l);
    assert(texts(lines@) =~= combo_cells_text(*c));
    lines
}

pub open spec fn threshold_text(kind: Seq<char>, apr: Binary64) -> Seq<char> {
    if apr.finite() {
        threshold_found_text(kind, apr)
    } else {
        threshold_missing_text(kind)
    }
}

fn threshold(kind: &str, apr: Binary64) -> (r: String)
    ensures
        r@ == threshold_text(kind@, apr),
{
    if apr.is_finite() {
        threshold_found(kind, apr)
    } else {
        threshold_missing(kind)
    }
}

/// The means of an axis, one line each.
pub open spec fn averages_text(rows: Seq<AverageRow>, unit: Seq<char>) -> Seq<Seq<char>> {
    rows.map_values(|r: AverageRow| average_text(r, unit))
}

fn averages_lines(rows: &Vec<AverageRow>, unit: &str) -> (r: Vec<String>)
    ensures
        texts(r@) == averages_text(rows@, unit@),
{
    let mut out: Vec<String> = Vec::new();
    let n: usize = rows.len();
    let mut i: usize = 0;
    while i < n
        invariant
            n == rows@.len(),
            i <= n,
            texts(out@) =~= averages_text(rows@.take(i as int), unit@),
        decreases n - i,
    {
        let ghost before = texts(out@);
        out.push(average(&rows[i], unit));
        assert(texts(out@) =~= before.push(average_text(rows@[i as int], unit@)));
        i = i + 1;
    }
    assert(rows@.take(n as int) =~= rows@);
    out
}

/// How many runs of a strategy were profitable, in words.
pub open spec fn profit_line(sorted: Seq<ComboResult>, s: CliExitStrategy) -> Seq<char> {
    profitable_text(s, gainers_of(sorted, s), runs_of(sorted, s))
}

/// What a sweep has to say: the best run, how many runs of each strategy were profitable, from
/// which rate on, and which holding times and limits did best.
pub open spec fn insights_text(sorted: Seq<ComboResult>) -> Seq<Seq<char>> {
    (if sorted.len() > 0 {
        best_text(sorted[0])
    } else {
        Seq::empty()
    }) + seq![
        profit_line(sorted, CliExitStrategy::Std),
        profit_line(sorted, CliExitStrategy::MaxHoldOnly),
        profit_line(sorted, CliExitStrategy::Hysteresis),
        threshold_text("maker"@, lowest_rate(sorted, true)),
        threshold_text("taker"@, lowest_rate(sorted, false)),
        "Avg net P&L by hold_hours (across all maker/apr/pos combos):"@,
    ] + averages_text(averages(sorted, Axis::HoldHours), "h"@) + seq![
        "Avg net P&L by max_positions:"@,
    ] + averages_text(averages(sorted, Axis::MaxPositions), ""@)
}

fn write_profit(sorted: &Vec<ComboResult>, s: CliExitStrategy) -> (r: String)
    ensures
        r@ == profit_line(sorted@, s),
{
    let (good, all) = count_profitable(sorted, s);
    profitable(s, good, all)
}

fn write_insights(sorted: &Vec<ComboResult>) -> (r: Vec<String>)
    ensures
        texts(r@) == insights_text(sorted@),
{
    let mut out: Vec<String> = Vec::new();
    assert(texts(out@) =~= Seq::<Seq<char>>::empty());
    if sorted.len() > 0 {
        out = best_lines(&sorted[0]);
    }
    let ghost first = texts(out@);
    let mut middle: Vec<String> = Vec::new();
    middle.push(write_profit(sorted, CliExitStrategy::Std));
    middle.push(write_profit(sorted, CliExitStrategy::MaxHoldOnly));
    middle.push(write_profit(sorted, CliExitStrategy::Hysteresis));
    middle.push(threshold("maker", find_lowest(sorted, true)));
    middle.push(threshold("taker", find_lowest(sorted, false)));
    middle.push(text("Avg net P&L by hold_hours (across all maker/apr/pos combos):"));
    let ghost second = texts(middle@);
    assert(second =~= seq![
        profit_line(sorted@, CliExitStrategy::Std),
        profit_line(sorted@, CliExitStrategy::MaxHoldOnly),
        profit_line(sorted@, CliExitStrategy::Hysteresis),
        threshold_text("maker"@, lowest_rate(sorted@, true)),
        threshold_text("taker"@, lowest_rate(sorted@, false)),
        "Avg net P&L by hold_hours (across all maker/apr/pos combos):"@,
    ]);
    let mut by_hold = averages_lines(&list_averages(sorted, Axis::HoldHours), "h");
    let ghost third = texts(by_hold@);
    let mut heading: Vec<String> = Vec::new();
    heading.push(text("Avg net P&L by max_positions:"));
    let ghost fourth = texts(heading@);
    assert(fourth =~= seq!["Avg net P&L by max_positions:"@]);
    let mut by_limit = averages_lines(&list_averages(sorted, Axis::MaxPositions), "");
    let ghost fifth = texts(by_limit@);
    out.append(&mut middle);
    assert(texts(out@) =~= first + second);
    out.append(&mut by_hold);
    assert(texts(out@) =~= first + second + third);
    out.append(&mut heading);
    assert(texts(out@) =~= first + second + third + fourth);
    out.append(&mut by_limit);
    assert(texts(out@) =~= first + second + third + fourth + fifth);
    out
}

/// The report on a sweep.
pub struct SweepReport {
    pub head: Vec<String>,
    /// The best runs, fifteen at most.
    pub top: Vec<ComboResult>,
    /// The worst runs, five at most, the worst first.
    pub bottom: Vec<ComboResult>,
    /// The best run of each strategy.
    pub best_by_strategy: Vec<ComboResult>,
    pub insights: Vec<String>,
}

/// The report on a sweep.
pub fn sweep_report(results: &Vec<ComboResult>, days: u32, capital: Binary64) -> (r: SweepReport)
    ensures
        texts(r.head@) == sweep_head_text(days as nat, capital),
        r.top@ == top(ranking(results@), 15),
        r.bottom@ == bottom(ranking(results@), 5),
        r.best_by_strategy@ == best_until(ranking(results@), 3),
        texts(r.insights@) == insights_text(ranking(results@)),
{
    let sorted = rank_results(results);
    SweepReport {
        head: sweep_head_lines(days, capital),
        top: take_top(&sorted, 15),
        bottom: take_bottom(&sorted, 5),
        best_by_strategy: best_by_strategy(&sorted),
        insights: write_insights(&sorted),
    }
}

/// The best of a strategy is of that strategy, and no run of it stands before.
pub proof fn the_best_of_a_strategy_comes_first(sorted: Seq<ComboResult>, s: CliExitStrategy)
    ensures
        0 <= first_of(sorted, s) <= sorted.len(),
        forall|i: int|
            0 <= i < first_of(sorted, s) ==> (#[trigger] sorted[i]).exit_strategy != s,
        first_of(sorted, s) < sorted.len() ==> sorted[first_of(sorted, s)].exit_strategy == s,
    decreases sorted.len(),
{
    if sorted.len() > 0 && sorted[0].exit_strategy != s {
        let rest = sorted.skip(1);
        the_best_of_a_strategy_comes_first(rest, s);
        assert forall|i: int| 0 <= i < first_of(sorted, s) implies (
        #[trigger] sorted[i]).exit_strategy != s by {
            if i > 0 {
                assert(rest[i - 1] == sorted[i]);
            }
        }
    }
}

} // verus!
