//! What holds of the size, the costs, the rates and the reasons of every trade of a backtest, in
//! terms of the parameters that were given.

use crate::accuracy::{
    lemma_moderate, lemma_near_chain, lemma_near_exact, lemma_near_scaled, lemma_then_over_whole,
    lemma_then_times_fraction, lemma_times, lemma_wider, moderate, near, one,
};
use crate::backtest::{apr_at_spec, cli_rank_spec, cost_in_dollars, taker_cost};
use crate::backtest::{BacktestArgs, CliExitStrategy, CoinSeries, ExitReason, Trade};
use crate::binary64::Binary64;
use crate::figure_laws::{
    a_market_order_costs_half_the_spread_the_fee_and_the_slippage,
    costs_are_basis_points_of_the_size,
};
use crate::funding_laws::the_rate_at_the_exit_is_the_one_in_force;
use crate::simulation::{
    all_accrued, closing, histories_in_order, hour_count, hour_time, last_hour, left, lemma_hours,
    period_fits, positions_after, seconds, simulated, snap_of, trades_after,
};
use crate::tier::{rank_spec, Tier};
use crate::trading_laws::{
    entered_in, every_trade_is_lawful, exit_of, lawful_trade, lemma_hour_bounds,
    lemma_left_members, open_positions_are_of_known_coins,
};
use vstd::prelude::*;

verus! {

// Sizes.

/// The percentage of the capital that a position takes: ten where entries ask for a rate, else 20,
/// 10, 5 and 2 from the strongest tier to the weakest.
pub open spec fn percent_taken(args: BacktestArgs, tier: Tier) -> int {
    if args.exit_strategy == CliExitStrategy::Hysteresis || args.min_funding_apr is Some {
        10
    } else {
        match tier {
            Tier::Strong => 20,
            Tier::Medium => 10,
            Tier::Early => 5,
            Tier::Weak => 2,
        }
    }
}

/// Every trade takes its percentage of the capital that was given.
pub proof fn trades_take_their_part_of_the_capital(
    args: BacktestArgs,
    series: Seq<CoinSeries>,
    start_ms: int,
    end_ms: int,
    i: int,
)
    requires
        series.len() <= usize::MAX,
        period_fits(start_ms, end_ms),
        moderate(args.capital, 90),
        0 <= i < simulated(args, series, start_ms, end_ms).len(),
    ensures
        ({
            let tr = simulated(args, series, start_ms, end_ms)[i];
            &&& near(
                tr.size_usd.units(),
                args.capital.units() * percent_taken(args, tr.entry_tier),
                100,
                2,
            )
            &&& moderate(tr.size_usd, 196)
        }),
{
    every_trade_is_lawful(args, series, start_ms, end_ms);
    let tr = simulated(args, series, start_ms, end_ms)[i];
    assert(lawful_trade(args, series, start_ms, end_ms, tr));
    let k = choose|k: int| 0 <= k && entered_in(args, series, start_ms, tr, k);
    let c = args.capital;
    lemma_moderate(c, 90);
    lemma_near_exact(c.units());
    lemma_then_times_fraction(
        c,
        c.units(),
        1,
        0,
        90,
        percent_taken(args, tr.entry_tier),
        100,
    );
}

// Costs.

/// A market order in dollars: the size times half the spread, the fee and the slippage, in
/// ten-thousandths.
proof fn lemma_market_cost(args: BacktestArgs, size: Binary64)
    requires
        moderate(size, 196),
        moderate(args.spread_bps, 100),
        moderate(args.taker_fee_bps, 100),
        moderate(args.slippage_bps, 100),
    ensures
        near(
            cost_in_dollars(size, taker_cost(args)).units(),
            size.units() * (args.spread_bps.units() + 2 * args.taker_fee_bps.units() + 2
                * args.slippage_bps.units()),
            20_000 * one(),
            5,
        ),
{
    a_market_order_costs_half_the_spread_the_fee_and_the_slippage(args);
    let b = taker_cost(args);
    let n = args.spread_bps.units() + 2 * args.taker_fee_bps.units() + 2
        * args.slippage_bps.units();
    let product = size.times_spec(b);
    lemma_moderate(args.spread_bps, 100);
    lemma_moderate(args.taker_fee_bps, 100);
    lemma_moderate(args.slippage_bps, 100);
    lemma_moderate(size, 196);
    lemma_moderate(b, 155);
    lemma_times(size, b, 196, 155);
    lemma_moderate(product, 351);
    lemma_near_scaled(b.units(), n, 2, 3, size.units());
    assert(b.units() * size.units() == size.units() * b.units() && n * size.units()
        == size.units() * n && size.units() * n >= 0 && size.units() * b.units() >= 0)
        by (nonlinear_arith)
        requires
            n >= 0,
            size.units() > 0,
            b.units() > 0,
    ;
    lemma_near_chain(
        product.units(),
        size.units() * b.units(),
        one(),
        1,
        size.units() * n,
        2,
        3,
    );
    lemma_then_over_whole(product, size.units() * n, one() * 2, 4, 351, 10_000);
    assert(one() * 2 * 10_000 == 20_000 * one());
}

/// Every trade pays a market order to get out, and one to get in or the fee of a limit order.
pub proof fn trades_pay_for_their_orders(
    args: BacktestArgs,
    series: Seq<CoinSeries>,
    start_ms: int,
    end_ms: int,
    i: int,
)
    requires
        series.len() <= usize::MAX,
        period_fits(start_ms, end_ms),
        moderate(args.capital, 90),
        moderate(args.maker_fee_bps, 100),
        moderate(args.spread_bps, 100),
        moderate(args.taker_fee_bps, 100),
        moderate(args.slippage_bps, 100),
        0 <= i < simulated(args, series, start_ms, end_ms).len(),
    ensures
        ({
            let tr = simulated(args, series, start_ms, end_ms)[i];
            let market = args.spread_bps.units() + 2 * args.taker_fee_bps.units() + 2
                * args.slippage_bps.units();
            &&& near(tr.exit_cost.units(), tr.size_usd.units() * market, 20_000 * one(), 5)
            &&& !args.use_maker ==> near(
                tr.entry_cost.units(),
                tr.size_usd.units() * market,
                20_000 * one(),
                5,
            )
            &&& args.use_maker ==> near(
                tr.entry_cost.units(),
                tr.size_usd.units() * args.maker_fee_bps.units(),
                10_000 * one(),
                2,
            )
            &&& tr.net_pnl == tr.gross_funding_pnl.minus_spec(tr.entry_cost).minus_spec(
                tr.exit_cost,
            )
        }),
{
    every_trade_is_lawful(args, series, start_ms, end_ms);
    trades_take_their_part_of_the_capital(args, series, start_ms, end_ms, i);
    let tr = simulated(args, series, start_ms, end_ms)[i];
    assert(lawful_trade(args, series, start_ms, end_ms, tr));
    lemma_market_cost(args, tr.size_usd);
    lemma_wider(tr.size_usd, 196, 200);
    lemma_wider(args.maker_fee_bps, 100, 200);
    costs_are_basis_points_of_the_size(tr.size_usd, args.maker_fee_bps);
}

// Rules.

/// Every trade was entered at a rate, or in a tier, that the parameters ask for.
pub proof fn trades_meet_what_their_entry_asks_for(
    args: BacktestArgs,
    series: Seq<CoinSeries>,
    start_ms: int,
    end_ms: int,
    i: int,
)
    requires
        series.len() <= usize::MAX,
        period_fits(start_ms, end_ms),
        0 <= i < simulated(args, series, start_ms, end_ms).len(),
    ensures
        ({
            let tr = simulated(args, series, start_ms, end_ms)[i];
            let size = tr.funding_apr_at_entry.abs_spec();
            if args.exit_strategy == CliExitStrategy::Hysteresis {
                args.hysteresis_entry_apr.at_most(size)
            } else {
                match args.min_funding_apr {
                    Some(rate) => rate.at_most(size),
                    None => rank_spec(tr.entry_tier) >= cli_rank_spec(args.min_tier),
                }
            }
        }),
{
    every_trade_is_lawful(args, series, start_ms, end_ms);
    let tr = simulated(args, series, start_ms, end_ms)[i];
    assert(lawful_trade(args, series, start_ms, end_ms, tr));
    let k = choose|k: int| 0 <= k && entered_in(args, series, start_ms, tr, k);
}

/// A trade that was left for a lost signal was left where the rate had fallen below what the
/// parameters ask for, where the deviation or the tier no longer did, or where nothing was known.
pub proof fn a_lost_signal_is_lost_by_the_rules(
    args: BacktestArgs,
    series: Seq<CoinSeries>,
    start_ms: int,
    end_ms: int,
    i: int,
)
    requires
        series.len() <= usize::MAX,
        period_fits(start_ms, end_ms),
        0 <= i < simulated(args, series, start_ms, end_ms).len(),
        simulated(args, series, start_ms, end_ms)[i].exit_reason == ExitReason::SignalLost,
    ensures
        ({
            let tr = simulated(args, series, start_ms, end_ms)[i];
            match snap_of(series, tr.asset as int, tr.exit_time_sec * 1000) {
                None => true,
                Some(s) => match args.exit_strategy {
                    CliExitStrategy::MaxHoldOnly => false,
                    CliExitStrategy::Hysteresis => !args.hysteresis_exit_apr.at_most(
                        s.apr_now.abs_spec(),
                    ),
                    CliExitStrategy::Std => match args.min_funding_apr {
                        Some(rate) => !rate.at_most(s.apr_now.abs_spec()) || !s.std_pct.below(70),
                        None => match s.natural_tier {
                            Some(tier) => rank_spec(tier) < cli_rank_spec(args.min_tier),
                            None => true,
                        },
                    },
                },
            }
        }),
{
    every_trade_is_lawful(args, series, start_ms, end_ms);
    let tr = simulated(args, series, start_ms, end_ms)[i];
    assert(lawful_trade(args, series, start_ms, end_ms, tr));
}

// The rate at the exit.

/// The rate at the exit of a trade is the one in force then; where there is none, that of the
/// entry.
pub open spec fn left_at_the_rate_in_force(series: Seq<CoinSeries>, tr: Trade) -> bool {
    tr.funding_apr_at_exit == (match apr_at_spec(
        series[tr.asset as int].points@,
        tr.exit_time_sec * 1000,
    ) {
        Some(apr) => apr,
        None => tr.funding_apr_at_entry,
    })
}

proof fn lemma_exit_rates_until(
    args: BacktestArgs,
    series: Seq<CoinSeries>,
    start_ms: int,
    end_ms: int,
    h: nat,
)
    requires
        series.len() <= usize::MAX,
        period_fits(start_ms, end_ms),
        histories_in_order(series),
        h <= hour_count(start_ms, end_ms),
    ensures
        forall|i: int|
            0 <= i < trades_after(args, series, start_ms, h).len() ==> left_at_the_rate_in_force(
                series,
                #[trigger] trades_after(args, series, start_ms, h)[i],
            ),
    decreases h,
{
    if h > 0 {
        let m = h - 1;
        let t = hour_time(start_ms, m);
        lemma_exit_rates_until(args, series, start_ms, end_ms, m as nat);
        lemma_hour_bounds(start_ms, end_ms, m);
        let ps = positions_after(args, series, start_ms, m as nat);
        let acc = all_accrued(series, ps, t);
        open_positions_are_of_known_coins(args, series, start_ms, end_ms, m as nat);
        let place = lemma_left_members(args, series, acc, t);
        let before = trades_after(args, series, start_ms, m as nat);
        let fresh = left(args, series, acc, t);
        let now = trades_after(args, series, start_ms, h);
        assert(now == before + fresh);
        assert forall|i: int| 0 <= i < now.len() implies left_at_the_rate_in_force(
            series,
            #[trigger] now[i],
        ) by {
            if i < before.len() {
                assert(now[i] == before[i]);
            } else {
                let j = i - before.len();
                let p = acc[place[j]];
                assert(now[i] == fresh[j]);
                assert(now[i] == exit_of(args, series, p, t));
                assert(now[i].exit_time_sec == seconds(t));
                assert(p.asset == ps[place[j]].asset);
                the_rate_at_the_exit_is_the_one_in_force(series, p.asset as int, t);
            }
        }
    }
}

/// Every trade of a backtest is left at the rate in force at its exit.
pub proof fn every_trade_is_left_at_the_rate_in_force(
    args: BacktestArgs,
    series: Seq<CoinSeries>,
    start_ms: int,
    end_ms: int,
)
    requires
        series.len() <= usize::MAX,
        period_fits(start_ms, end_ms),
        histories_in_order(series),
    ensures
        forall|i: int|
            0 <= i < simulated(args, series, start_ms, end_ms).len() ==> left_at_the_rate_in_force(
                series,
                #[trigger] simulated(args, series, start_ms, end_ms)[i],
            ),
{
    let n = hour_count(start_ms, end_ms);
    lemma_exit_rates_until(args, series, start_ms, end_ms, n);
    lemma_hours(start_ms, end_ms);
    let ps = positions_after(args, series, start_ms, n);
    let before = trades_after(args, series, start_ms, n);
    let t = last_hour(end_ms);
    let tail = closing(args, series, ps, t);
    let all = simulated(args, series, start_ms, end_ms);
    assert(all == before + tail);
    assert forall|i: int| 0 <= i < all.len() implies left_at_the_rate_in_force(
        series,
        #[trigger] all[i],
    ) by {
        if i < before.len() {
            assert(all[i] == before[i]);
        } else {
            assert(all[i] == tail[i - before.len()]);
            lemma_hour_bounds(start_ms, end_ms, n - 1);
            assert(all[i].exit_time_sec == seconds(t));
        }
    }
}

} // verus!
