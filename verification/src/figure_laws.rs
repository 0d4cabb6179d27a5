//! What the figures of trades, costs and returns stand for.
//!
//! The exact value of each is given as a fraction of whole numbers of units; the computed one is
//! near to it. Numbers that come into a figure are taken to be moderate: positive, and neither
//! tiny nor huge. Where whole numbers go in, some figures are exact.

use crate::accuracy::{
    lemma_moderate, lemma_moderate_whole, lemma_near_exact, lemma_near_expanded, lemma_near_more,
    lemma_signs_apart, lemma_then_over, lemma_then_over_whole, lemma_then_plus, lemma_then_times,
    lemma_then_times_fraction, lemma_then_times_whole, lemma_wider, moderate, near, one,
};
use crate::arithmetic::{
    addition_commutes, lemma_nearest_is_a_magnitude, nearest_of_a_double,
    representable_sums_are_exact, UNIT_EXPONENT,
};
use crate::backtest::{
    apr_of, break_even_spec, cost_in_dollars, entry_cost_spec, taker_cost, BacktestArgs, Trade,
};
use crate::binary64::{mag_units, Binary64, HIDDEN, INFINITE};
use crate::metrics::{
    figures, gains, gains_and_losses_are_apart, losses, per_year, return_on, share, Figure,
};
use crate::monotony::{
    addition_keeps_the_order, division_keeps_the_order, lemma_between_infinities,
    lemma_finite_is_smaller, lemma_mag_units_keep, lemma_positive, lemma_signed_units,
    lemma_sum_is_a_number, lemma_whole, lemma_whole_quotient, multiplication_keeps_the_order,
    rounding_keeps_the_order,
};
use crate::rounding::{brackets, nearest};
use crate::stats::{mean_of, percent_of_mean, sum_of};
use crate::summary::{cost_ratio, cost_share, summary_of};
use crate::sweep::combo_of;
use vstd::arithmetic::power2::*;
use vstd::prelude::*;

verus! {

// Division by more.

/// A fraction may be expanded before it is rounded.
pub proof fn lemma_nearest_expanded(num: nat, den: nat, c: nat)
    requires
        den > 0,
        c > 0,
    ensures
        nearest(num * c, den * c) == nearest(num, den),
{
    let inf = INFINITE as nat;
    assert(den * c > 0) by (nonlinear_arith)
        requires
            den > 0,
            c > 0,
    ;
    let top = mag_units(inf);
    assert(top * (den * c) == (top * den) * c) by (nonlinear_arith);
    if num < top * den {
        crate::arithmetic::lemma_bracket_exists(num, den, inf);
        let k = choose|k: nat| brackets(k, num, den);
        let low = mag_units(k);
        let high = mag_units(k + 1);
        assert(low * (den * c) == (low * den) * c && high * (den * c) == (high * den) * c)
            by (nonlinear_arith);
        let a = low * den;
        let b = high * den;
        assert(a * c <= num * c && num * c < b * c) by (nonlinear_arith)
            requires
                a <= num < b,
                c > 0,
        ;
        assert(brackets(k, num * c, den * c));
        crate::rounding::lemma_nearest_at(k, num, den);
        crate::rounding::lemma_nearest_at(k, num * c, den * c);
        let below = num - a;
        let above = b - num;
        assert(num * c - a * c == below * c && b * c - num * c == above * c) by (nonlinear_arith)
            requires
                below == num - a,
                above == b - num,
        ;
        assert((below * c < above * c <==> below < above) && (below * c == above * c <==> below
            == above)) by (nonlinear_arith)
            requires
                c > 0,
        ;
    } else {
        assert((top * den) * c <= num * c) by (nonlinear_arith)
            requires
                top * den <= num,
        ;
    }
}

/// A number that is not below zero, divided by more, is not more.
pub proof fn division_by_more_gives_no_more(a: Binary64, d: Binary64, e: Binary64)
    requires
        a.finite(),
        !a.sign(),
        d.above(0),
        d.at_most(e),
        e.finite(),
    ensures
        a.over_spec(e).at_most(a.over_spec(d)),
{
    reveal(Binary64::over_spec);
    lemma_whole(0);
    assert(e.above(0));
    lemma_positive(d);
    lemma_positive(e);
    if !d.finite() {
        lemma_finite_is_smaller(e);
        lemma_between_infinities(d);
    }
    let x = mag_units(a.mag());
    let p = pow2(UNIT_EXPONENT as nat);
    let y = mag_units(d.mag());
    let z = mag_units(e.mag());
    let n = x * p;
    lemma_nearest_expanded(n, y, z);
    lemma_nearest_expanded(n, z, y);
    assert(n * y <= n * z && y * z == z * y && z * y > 0) by (nonlinear_arith)
        requires
            y <= z,
            0 < y,
            0 <= n,
    ;
    rounding_keeps_the_order(n * y, n * z, z * y);
    lemma_nearest_is_a_magnitude(n, y);
    lemma_nearest_is_a_magnitude(n, z);
    lemma_mag_units_keep(nearest(n, z), nearest(n, y));
    lemma_signed_units(false, nearest(n, y));
    lemma_signed_units(false, nearest(n, z));
}

// The costs of an order.

/// What a market order costs is half the spread, the fee and the slippage.
pub proof fn a_market_order_costs_half_the_spread_the_fee_and_the_slippage(args: BacktestArgs)
    requires
        moderate(args.spread_bps, 100),
        moderate(args.taker_fee_bps, 100),
        moderate(args.slippage_bps, 100),
    ensures
        near(
            taker_cost(args).units(),
            args.spread_bps.units() + 2 * args.taker_fee_bps.units() + 2
                * args.slippage_bps.units(),
            2,
            3,
        ),
        moderate(taker_cost(args), 155),
{
    let s = args.spread_bps;
    let f = args.taker_fee_bps;
    let l = args.slippage_bps;
    lemma_moderate(s, 100);
    lemma_moderate(f, 100);
    lemma_moderate(l, 100);
    lemma_near_exact(s.units());
    lemma_near_exact(f.units());
    lemma_near_exact(l.units());
    lemma_then_over_whole(s, s.units(), 1, 0, 100, 2);
    let half = s.over_spec(Binary64::whole(2));
    lemma_wider(f, 100, 153);
    lemma_near_expanded(f.units(), f.units(), 1, 0, 2);
    lemma_near_more(f.units(), f.units() * 2, 2, 0, 1);
    lemma_then_plus(half, s.units(), f, f.units() * 2, 2, 1, 153);
    lemma_wider(l, 100, 154);
    lemma_near_expanded(l.units(), l.units(), 1, 0, 2);
    lemma_near_more(l.units(), l.units() * 2, 2, 0, 2);
    lemma_then_plus(half.plus_spec(f), s.units() + f.units() * 2, l, l.units() * 2, 2, 2, 154);
}

/// A number of the value of a finite one is finite.
pub proof fn lemma_finite_like(x: Binary64, y: Binary64)
    requires
        !x.nan(),
        y.finite(),
        x.units() == y.units(),
    ensures
        x.finite(),
{
    lemma_finite_is_smaller(y);
    lemma_between_infinities(x);
}

/// Where the spread is an even number of basis points and the other two are whole, what a market
/// order costs is exact.
pub proof fn whole_costs_are_exact(args: BacktestArgs, half: int, fee: int, slippage: int)
    requires
        0 <= half,
        0 <= fee,
        0 <= slippage,
        2 * half + fee + slippage < 2 * HIDDEN,
        args.spread_bps == Binary64::whole(2 * half),
        args.taker_fee_bps == Binary64::whole(fee),
        args.slippage_bps == Binary64::whole(slippage),
    ensures
        taker_cost(args).finite(),
        taker_cost(args).units() == Binary64::whole(half + fee + slippage).units(),
{
    lemma_whole(half);
    lemma_whole(fee);
    lemma_whole(slippage);
    lemma_whole(half + fee);
    lemma_whole(half + fee + slippage);
    assert(half * 2 == 2 * half);
    lemma_whole_quotient(half, 2);
    let p = pow2(UNIT_EXPONENT as nat);
    assert(half * p + fee * p == (half + fee) * p && (half + fee) * p + slippage * p == (half + fee
        + slippage) * p) by (nonlinear_arith);
    let first = args.spread_bps.over_spec(Binary64::whole(2));
    lemma_finite_like(first, Binary64::whole(half));
    representable_sums_are_exact(first, Binary64::whole(fee), Binary64::whole(half + fee));
    representable_sums_are_exact(
        first.plus_spec(Binary64::whole(fee)),
        Binary64::whole(slippage),
        Binary64::whole(half + fee + slippage),
    );
}

/// A larger spread, a larger fee or more slippage never makes a market order cost less.
pub proof fn dearer_markets_never_cost_less(args: BacktestArgs, dearer: BacktestArgs)
    requires
        args.spread_bps.at_most(dearer.spread_bps),
        args.taker_fee_bps.at_most(dearer.taker_fee_bps),
        args.slippage_bps.at_most(dearer.slippage_bps),
        args.taker_fee_bps.finite(),
        dearer.taker_fee_bps.finite(),
        args.slippage_bps.finite(),
        dearer.slippage_bps.finite(),
    ensures
        taker_cost(args).at_most(taker_cost(dearer)),
{
    let two = Binary64::whole(2);
    lemma_whole(2);
    division_keeps_the_order(args.spread_bps, dearer.spread_bps, two);
    let a = args.spread_bps.over_spec(two);
    let b = dearer.spread_bps.over_spec(two);
    let fa = args.taker_fee_bps;
    let fb = dearer.taker_fee_bps;
    let la = args.slippage_bps;
    let lb = dearer.slippage_bps;
    lemma_sums_grow(a, b, fa, fb);
    lemma_sums_grow(a.plus_spec(fa), b.plus_spec(fb), la, lb);
}

/// A sum grows with both of its operands.
proof fn lemma_sums_grow(a: Binary64, b: Binary64, c: Binary64, d: Binary64)
    requires
        a.at_most(b),
        c.at_most(d),
        c.finite(),
        d.finite(),
    ensures
        a.plus_spec(c).at_most(b.plus_spec(d)),
{
    lemma_sum_is_a_number(a, c);
    lemma_sum_is_a_number(b, c);
    lemma_sum_is_a_number(b, d);
    addition_keeps_the_order(a, b, c);
    addition_commutes(b, c);
    addition_commutes(b, d);
    addition_keeps_the_order(c, d, b);
}

/// A limit order costs its own fee, whatever the market is like.
pub proof fn a_limit_order_costs_its_fee(args: BacktestArgs)
    requires
        args.use_maker,
    ensures
        entry_cost_spec(args) == args.maker_fee_bps,
{
}

/// A cost in dollars is that part of the size, a basis point being a ten-thousandth.
pub proof fn costs_are_basis_points_of_the_size(size: Binary64, bps: Binary64)
    requires
        moderate(size, 200),
        moderate(bps, 200),
    ensures
        near(
            cost_in_dollars(size, bps).units(),
            size.units() * bps.units(),
            10_000 * one(),
            2,
        ),
        moderate(cost_in_dollars(size, bps), 453),
{
    lemma_moderate(size, 200);
    lemma_near_exact(size.units());
    lemma_then_times(size, size.units(), 1, 0, 200, bps, 200);
    lemma_then_over_whole(
        size.times_spec(bps),
        size.units() * bps.units(),
        one() * 1,
        1,
        400,
        10_000,
    );
    assert(one() * 1 * 10_000 == 10_000 * one());
}

/// The rate that pays for two market orders: their costs, times 87.6, over the hours held.
pub proof fn the_funding_of_the_holding_time_pays_for_market_orders(args: BacktestArgs)
    requires
        !args.use_maker,
        args.hold_hours >= 1,
        moderate(args.spread_bps, 100),
        moderate(args.taker_fee_bps, 100),
        moderate(args.slippage_bps, 100),
    ensures
        near(
            break_even_spec(args).units(),
            (args.spread_bps.units() + 2 * args.taker_fee_bps.units() + 2
                * args.slippage_bps.units()) * 876,
            10 * args.hold_hours,
            7,
        ),
{
    a_market_order_costs_half_the_spread_the_fee_and_the_slippage(args);
    let c = taker_cost(args);
    let n = args.spread_bps.units() + 2 * args.taker_fee_bps.units() + 2
        * args.slippage_bps.units();
    lemma_moderate(args.spread_bps, 100);
    lemma_moderate(args.taker_fee_bps, 100);
    lemma_moderate(args.slippage_bps, 100);
    lemma_then_plus(c, n, c, n, 2, 3, 155);
    let both = c.plus_spec(c);
    assert(n + n == n * 2 && 1 * 2 == 2);
    lemma_near_expanded(both.units(), n, 1, 4, 2);
    lemma_then_times_fraction(both, n, 1, 4, 156, 876, 10);
    lemma_then_over_whole(
        both.times_spec(Binary64::ratio(876, 10)),
        n * 876,
        10,
        6,
        262,
        args.hold_hours as int,
    );
}

/// The rate that pays for a limit order in and a market order out.
pub proof fn the_funding_of_the_holding_time_pays_for_a_limit_order(args: BacktestArgs)
    requires
        args.use_maker,
        args.hold_hours >= 1,
        moderate(args.maker_fee_bps, 100),
        moderate(args.spread_bps, 100),
        moderate(args.taker_fee_bps, 100),
        moderate(args.slippage_bps, 100),
    ensures
        near(
            break_even_spec(args).units(),
            (2 * args.maker_fee_bps.units() + args.spread_bps.units() + 2
                * args.taker_fee_bps.units() + 2 * args.slippage_bps.units()) * 876,
            20 * args.hold_hours,
            7,
        ),
{
    a_market_order_costs_half_the_spread_the_fee_and_the_slippage(args);
    let c = taker_cost(args);
    let m = args.maker_fee_bps;
    let n = args.spread_bps.units() + 2 * args.taker_fee_bps.units() + 2
        * args.slippage_bps.units();
    lemma_moderate(m, 100);
    lemma_moderate(args.spread_bps, 100);
    lemma_moderate(args.taker_fee_bps, 100);
    lemma_moderate(args.slippage_bps, 100);
    lemma_near_exact(m.units());
    lemma_near_expanded(m.units(), m.units(), 1, 0, 2);
    lemma_near_more(m.units(), m.units() * 2, 2, 0, 3);
    lemma_wider(m, 100, 155);
    lemma_then_plus(m, m.units() * 2, c, n, 2, 3, 155);
    let both = m.plus_spec(c);
    let sum = m.units() * 2 + n;
    lemma_then_times_fraction(both, sum, 2, 4, 156, 876, 10);
    lemma_then_over_whole(
        both.times_spec(Binary64::ratio(876, 10)),
        sum * 876,
        20,
        6,
        262,
        args.hold_hours as int,
    );
}

/// A position that may be held longer never needs a higher rate to pay for its orders.
pub proof fn longer_holding_never_raises_the_break_even(args: BacktestArgs, longer: u32)
    requires
        1 <= args.hold_hours <= longer,
        moderate(args.maker_fee_bps, 100),
        moderate(args.spread_bps, 100),
        moderate(args.taker_fee_bps, 100),
        moderate(args.slippage_bps, 100),
    ensures
        break_even_spec(BacktestArgs { hold_hours: longer, ..args }).at_most(
            break_even_spec(args),
        ),
{
    a_market_order_costs_half_the_spread_the_fee_and_the_slippage(args);
    let more = BacktestArgs { hold_hours: longer, ..args };
    let c = taker_cost(args);
    let e = entry_cost_spec(args);
    assert(taker_cost(more) == c && entry_cost_spec(more) == e);
    lemma_wider(args.maker_fee_bps, 100, 155);
    lemma_moderate(e, 155);
    lemma_moderate(c, 155);
    lemma_near_exact(e.units());
    lemma_near_exact(c.units());
    lemma_then_plus(e, e.units(), c, c.units(), 1, 0, 155);
    let both = e.plus_spec(c);
    lemma_then_times_fraction(both, e.units() + c.units(), 1, 1, 156, 876, 10);
    lemma_whole(args.hold_hours as int);
    crate::monotony::lemma_wholes_in_order(args.hold_hours as int, longer as int);
    lemma_whole(longer as int);
    division_by_more_gives_no_more(
        both.times_spec(Binary64::ratio(876, 10)),
        Binary64::whole(args.hold_hours as int),
        Binary64::whole(longer as int),
    );
}

// Returns.

/// A return is the result in percent of the capital, with the sign of the result.
pub proof fn returns_are_percentages_of_the_capital(total: Binary64, capital: Binary64)
    requires
        moderate(total.abs_spec(), 200),
        moderate(capital, 200),
    ensures
        near(
            return_on(total, capital).abs_spec().units(),
            total.abs_spec().units() * one() * 100,
            capital.units(),
            2,
        ),
        return_on(total, capital).sign() == total.sign(),
        moderate(return_on(total, capital).abs_spec(), 453),
{
    let size = total.abs_spec();
    lemma_moderate(size, 200);
    lemma_moderate(capital, 200);
    lemma_near_exact(size.units());
    lemma_then_over(size, size.units(), 1, 0, 200, capital, 200);
    let part = size.over_spec(capital);
    assert(capital.units() * 1 == capital.units());
    lemma_then_times_whole(part, size.units() * one(), capital.units(), 1, 400, 100);
    lemma_signs_apart(total, capital);
    lemma_whole(100);
    lemma_positive(Binary64::whole(100));
    lemma_signs_apart(total.over_spec(capital), Binary64::whole(100));
}

/// A result of the size of the capital is a return of a hundred percent.
pub proof fn the_whole_capital_is_a_hundred_percent(capital: Binary64)
    requires
        capital.finite(),
        capital.mag() > 0,
    ensures
        return_on(capital, capital).units() == Binary64::whole(100).units(),
        !return_on(capital, capital).nan(),
{
    reveal(Binary64::over_spec);
    lemma_whole(1);
    lemma_whole(100);
    let x = mag_units(capital.mag());
    crate::binary64::lemma_mag_units_increase(0, capital.mag());
    let p = pow2(UNIT_EXPONENT as nat);
    let m = Binary64::whole(1).mag();
    assert(mag_units(m) == p);
    assert(x * p == p * x) by (nonlinear_arith);
    nearest_of_a_double(m, x);
    let part = capital.over_spec(capital);
    assert(part == Binary64::whole(1));
    crate::monotony::lemma_whole_product(1, 100);
}

/// For one result that is not a loss, more capital never means a larger return.
pub proof fn more_capital_never_returns_more(total: Binary64, capital: Binary64, more: Binary64)
    requires
        total.finite(),
        !total.sign(),
        capital.above(0),
        capital.at_most(more),
        more.finite(),
    ensures
        return_on(total, more).at_most(return_on(total, capital)),
{
    lemma_whole(100);
    division_by_more_gives_no_more(total, capital, more);
    multiplication_keeps_the_order(
        total.over_spec(more),
        total.over_spec(capital),
        Binary64::whole(100),
    );
}

/// A larger result never means a smaller return.
pub proof fn larger_results_never_return_less(total: Binary64, larger: Binary64, capital: Binary64)
    requires
        total.at_most(larger),
        capital.above(0),
        capital.finite(),
    ensures
        return_on(total, capital).at_most(return_on(larger, capital)),
{
    lemma_whole(100);
    division_keeps_the_order(total, larger, capital);
    multiplication_keeps_the_order(
        total.over_spec(capital),
        larger.over_spec(capital),
        Binary64::whole(100),
    );
}

/// A return over some days goes up in proportion to a year of 365 days.
pub proof fn a_year_has_365_days(pct: Binary64, days: nat)
    requires
        moderate(pct.abs_spec(), 500),
        1 <= days < 2 * HIDDEN,
    ensures
        near(
            per_year(pct, days).abs_spec().units(),
            pct.abs_spec().units() * 365,
            days as int,
            2,
        ),
        per_year(pct, days).sign() == pct.sign(),
{
    let size = pct.abs_spec();
    lemma_moderate(size, 500);
    lemma_near_exact(size.units());
    lemma_then_times_whole(size, size.units(), 1, 0, 500, 365);
    lemma_then_over_whole(
        size.times_spec(Binary64::whole(365)),
        size.units() * 365,
        1,
        1,
        553,
        days as int,
    );
    assert(1 * days == days);
    lemma_whole(365);
    lemma_whole(days as int);
    lemma_positive(Binary64::whole(365));
    lemma_positive(Binary64::whole(days as int));
    lemma_signs_apart(pct, Binary64::whole(365));
    lemma_signs_apart(pct.times_spec(Binary64::whole(365)), Binary64::whole(days as int));
}

/// A yearly return of a result: in percent of the capital, times 365 over the days.
pub open spec fn yearly_return_of(
    r: Binary64,
    total: Binary64,
    capital: Binary64,
    days: int,
) -> bool {
    &&& near(
        r.abs_spec().units(),
        total.abs_spec().units() * one() * 36_500,
        capital.units() * days,
        4,
    )
    &&& r.sign() == total.sign()
}

proof fn lemma_yearly_return(total: Binary64, capital: Binary64, days: nat)
    requires
        moderate(total.abs_spec(), 200),
        moderate(capital, 200),
        1 <= days < 2 * HIDDEN,
    ensures
        yearly_return_of(per_year(return_on(total, capital), days), total, capital, days as int),
{
    let size = total.abs_spec();
    let pct = return_on(total, capital);
    let n = size.units() * one() * 100;
    returns_are_percentages_of_the_capital(total, capital);
    lemma_moderate(size, 200);
    lemma_moderate(capital, 200);
    assert(n >= 0) by (nonlinear_arith)
        requires
            n == size.units() * one() * 100,
            size.units() > 0,
            one() > 0,
    ;
    lemma_then_times_whole(pct.abs_spec(), n, capital.units(), 2, 453, 365);
    lemma_then_over_whole(
        pct.abs_spec().times_spec(Binary64::whole(365)),
        n * 365,
        capital.units(),
        3,
        506,
        days as int,
    );
    assert(n * 365 == size.units() * one() * 36_500) by (nonlinear_arith)
        requires
            n == size.units() * one() * 100,
    ;
    lemma_whole(365);
    lemma_whole(days as int);
    lemma_positive(Binary64::whole(365));
    lemma_positive(Binary64::whole(days as int));
    lemma_signs_apart(pct, Binary64::whole(365));
    lemma_signs_apart(pct.times_spec(Binary64::whole(365)), Binary64::whole(days as int));
}

/// The yearly return of a run is that of its result after costs, on its own capital and over its
/// own days.
pub proof fn the_return_of_a_run_is_on_its_capital(trades: Seq<Trade>, args: BacktestArgs)
    requires
        args.days >= 1,
        moderate(args.capital, 200),
        moderate(combo_of(trades, args).net_pnl.abs_spec(), 200),
    ensures
        yearly_return_of(
            combo_of(trades, args).annualized_pct,
            combo_of(trades, args).net_pnl,
            args.capital,
            args.days as int,
        ),
{
    lemma_yearly_return(combo_of(trades, args).net_pnl, args.capital, args.days as nat);
}

/// Of two runs with the same trades that gained, the one with more capital never shows the larger
/// yearly return.
pub proof fn a_run_on_more_capital_never_returns_more(
    trades: Seq<Trade>,
    args: BacktestArgs,
    more: Binary64,
)
    requires
        args.days >= 1,
        combo_of(trades, args).net_pnl.finite(),
        !combo_of(trades, args).net_pnl.sign(),
        args.capital.above(0),
        args.capital.at_most(more),
        more.finite(),
    ensures
        combo_of(trades, BacktestArgs { capital: more, ..args }).annualized_pct.at_most(
            combo_of(trades, args).annualized_pct,
        ),
{
    let net = combo_of(trades, args).net_pnl;
    more_capital_never_returns_more(net, args.capital, more);
    lemma_whole(365);
    lemma_whole(args.days as int);
    multiplication_keeps_the_order(
        return_on(net, more),
        return_on(net, args.capital),
        Binary64::whole(365),
    );
    division_keeps_the_order(
        return_on(net, more).times_spec(Binary64::whole(365)),
        return_on(net, args.capital).times_spec(Binary64::whole(365)),
        Binary64::whole(args.days as int),
    );
}

/// The returns of a report are those of its results, before and after costs, on its own capital
/// and over its own days.
pub proof fn the_returns_of_a_report_are_on_its_capital(
    trades: Seq<Trade>,
    args: BacktestArgs,
    start_ms: int,
    end_ms: int,
)
    requires
        args.days >= 1,
        moderate(args.capital, 200),
        moderate(summary_of(trades, args, start_ms, end_ms).total_pnl.abs_spec(), 200),
        moderate(summary_of(trades, args, start_ms, end_ms).net.abs_spec(), 200),
    ensures
        ({
            let s = summary_of(trades, args, start_ms, end_ms);
            &&& near(
                s.pct_return.abs_spec().units(),
                s.total_pnl.abs_spec().units() * one() * 100,
                args.capital.units(),
                2,
            )
            &&& s.pct_return.sign() == s.total_pnl.sign()
            &&& yearly_return_of(s.annualized, s.total_pnl, args.capital, args.days as int)
            &&& yearly_return_of(s.net_annualized, s.net, args.capital, args.days as int)
        }),
{
    let s = summary_of(trades, args, start_ms, end_ms);
    returns_are_percentages_of_the_capital(s.total_pnl, args.capital);
    lemma_yearly_return(s.total_pnl, args.capital, args.days as nat);
    lemma_yearly_return(s.net, args.capital, args.days as nat);
}

/// A share is the count in percent of the total.
pub proof fn shares_are_counts_in_percent(n: nat, total: nat)
    requires
        1 <= n <= total < 2 * HIDDEN,
    ensures
        near(share(n, total).units(), n * one() * 100, total as int, 2),
{
    lemma_moderate_whole(n as int);
    let x = Binary64::whole(n as int);
    lemma_moderate(x, 53);
    lemma_near_exact(x.units());
    lemma_then_over_whole(x, n * one(), 1, 0, 53, total as int);
    assert(1 * total == total);
    lemma_then_times_whole(
        x.over_spec(Binary64::whole(total as int)),
        n * one(),
        total as int,
        1,
        106,
        100,
    );
}

/// A rate in percent per year is the hourly one times the 8760 hours of a year times a hundred.
pub proof fn a_year_has_8760_hours(rate: Binary64)
    requires
        moderate(rate.abs_spec(), 500),
    ensures
        near(apr_of(rate).abs_spec().units(), rate.abs_spec().units() * 876_000, 1, 3),
        apr_of(rate).sign() == rate.sign(),
{
    let size = rate.abs_spec();
    lemma_moderate(size, 500);
    lemma_near_exact(size.units());
    let a = size.times_spec(Binary64::whole(24));
    let b = a.times_spec(Binary64::whole(365));
    lemma_then_times_whole(size, size.units(), 1, 0, 500, 24);
    lemma_then_times_whole(a, size.units() * 24, 1, 1, 553, 365);
    lemma_then_times_whole(b, size.units() * 24 * 365, 1, 2, 606, 100);
    assert(size.units() * 24 * 365 * 100 == size.units() * 876_000);
    lemma_whole(24);
    lemma_whole(365);
    lemma_whole(100);
    lemma_positive(Binary64::whole(24));
    lemma_positive(Binary64::whole(365));
    lemma_positive(Binary64::whole(100));
    let c = rate.times_spec(Binary64::whole(24));
    lemma_signs_apart(rate, Binary64::whole(24));
    lemma_signs_apart(c, Binary64::whole(365));
    lemma_signs_apart(c.times_spec(Binary64::whole(365)), Binary64::whole(100));
}

// Means and ratios.

/// A mean is the sum over the number of members, with the sign of the sum.
pub proof fn a_mean_is_the_sum_over_the_number(xs: Seq<Binary64>)
    requires
        1 <= xs.len() < 2 * HIDDEN,
        moderate(sum_of(xs).abs_spec(), 500),
    ensures
        near(
            mean_of(xs).abs_spec().units(),
            sum_of(xs).abs_spec().units(),
            xs.len() as int,
            1,
        ),
        mean_of(xs).sign() == sum_of(xs).sign(),
{
    let sum = sum_of(xs);
    let size = sum.abs_spec();
    let n = Binary64::whole(xs.len() as int);
    lemma_moderate(size, 500);
    lemma_near_exact(size.units());
    lemma_then_over_whole(size, size.units(), 1, 0, 500, xs.len() as int);
    lemma_whole(xs.len() as int);
    lemma_positive(n);
    lemma_signs_apart(sum, n);
}

/// The mean result of a trade is the result of all over their number.
pub proof fn the_mean_result_is_that_of_a_trade(
    trades: Seq<Trade>,
    args: BacktestArgs,
    start_ms: int,
    end_ms: int,
)
    requires
        1 <= trades.len() < 2 * HIDDEN,
        moderate(summary_of(trades, args, start_ms, end_ms).total_pnl.abs_spec(), 500),
    ensures
        ({
            let s = summary_of(trades, args, start_ms, end_ms);
            &&& near(
                s.avg_pnl.abs_spec().units(),
                s.total_pnl.abs_spec().units(),
                trades.len() as int,
                1,
            )
            &&& s.avg_pnl.sign() == s.total_pnl.sign()
        }),
{
    a_mean_is_the_sum_over_the_number(figures(trades, Figure::Gross));
}

/// A part in percent of a whole: a hundred times the one over the other.
proof fn lemma_percentage(part: Binary64, all: Binary64)
    requires
        moderate(part, 300),
        moderate(all, 300),
    ensures
        near(
            Binary64::whole(100).times_spec(part).over_spec(all).units(),
            100 * part.units() * one(),
            all.units(),
            2,
        ),
{
    let hundred = Binary64::whole(100);
    lemma_moderate_whole(100);
    lemma_moderate(hundred, 53);
    lemma_moderate(part, 300);
    lemma_moderate(all, 300);
    lemma_near_exact(hundred.units());
    lemma_then_times(hundred, 100 * one(), 1, 0, 53, part, 300);
    let n = 100 * part.units();
    assert((100 * one()) * part.units() == n * one() && n >= 0) by (nonlinear_arith)
        requires
            n == 100 * part.units(),
            part.units() > 0,
    ;
    let x = hundred.times_spec(part);
    assert(one() * 1 == 1 * one());
    lemma_near_expanded(x.units(), n, 1, 1, one());
    lemma_then_over(x, n, 1, 1, 353, all, 300);
    assert(all.units() * 1 == all.units());
}

/// Where there is a result before costs, the costs are given in percent of its size, and, where
/// it is a profit, of the profit.
pub proof fn costs_are_percentages_of_the_result(costs: Binary64, gross: Binary64)
    requires
        moderate(costs, 300),
        moderate(gross.abs_spec(), 300),
        gross.abs_spec().reaches(1),
    ensures
        near(
            cost_share(costs, gross).units(),
            100 * costs.units() * one(),
            gross.abs_spec().units(),
            2,
        ),
        !gross.sign() ==> near(
            cost_ratio(costs, gross).units(),
            100 * costs.units() * one(),
            gross.units(),
            2,
        ),
        gross.sign() ==> !cost_ratio(costs, gross).finite(),
{
    lemma_percentage(costs, gross.abs_spec());
    lemma_moderate(gross.abs_spec(), 300);
    lemma_a_billionth_is_small();
    let tiny = Binary64::ratio(1, 1_000_000_000);
    lemma_whole(0);
    lemma_whole(1);
    assert(tiny.less(gross.abs_spec()));
    if gross.sign() {
        assert(gross.units() < 0);
        assert(0 * pow2(UNIT_EXPONENT as nat) == 0) by (nonlinear_arith);
    } else {
        assert(gross.abs_spec() == gross);
    }
}

/// A billionth is between zero and one.
pub proof fn lemma_a_billionth_is_small()
    ensures
        Binary64::ratio(1, 1_000_000_000).above(0),
        Binary64::ratio(1, 1_000_000_000).less(Binary64::whole(1)),
{
    let d = Binary64::whole(1_000_000_000);
    lemma_whole(0);
    lemma_whole(1);
    lemma_whole(1_000_000_000);
    crate::accuracy::lemma_fraction(1, 1_000_000_000);
    let x = Binary64::ratio(1, 1_000_000_000);
    lemma_moderate(x, 106);
    let u = x.units();
    let p = one();
    assert(0 * pow2(UNIT_EXPONENT as nat) == 0 && 1 * pow2(UNIT_EXPONENT as nat) == p)
        by (nonlinear_arith)
        requires
            p == pow2(UNIT_EXPONENT as nat),
    ;
    assert(u < p) by (nonlinear_arith)
        requires
            u * 1_000_000_000 * (HIDDEN - 1) <= (1 * p) * HIDDEN,
            p > 0,
            HIDDEN == 0x10_0000_0000_0000,
    ;
}

/// The costs of a report, in percent of its result and of its profit.
pub proof fn the_costs_of_a_report_are_percentages_of_its_result(
    trades: Seq<Trade>,
    args: BacktestArgs,
    start_ms: int,
    end_ms: int,
)
    requires
        moderate(summary_of(trades, args, start_ms, end_ms).costs, 300),
        moderate(summary_of(trades, args, start_ms, end_ms).total_pnl.abs_spec(), 300),
        summary_of(trades, args, start_ms, end_ms).total_pnl.abs_spec().reaches(1),
    ensures
        ({
            let s = summary_of(trades, args, start_ms, end_ms);
            &&& near(
                s.cost_pct_of_gross.units(),
                100 * s.costs.units() * one(),
                s.total_pnl.abs_spec().units(),
                2,
            )
            &&& !s.total_pnl.sign() ==> near(
                s.cost_to_profit.units(),
                100 * s.costs.units() * one(),
                s.total_pnl.units(),
                2,
            )
            &&& s.total_pnl.sign() ==> !s.cost_to_profit.finite()
        }),
{
    let s = summary_of(trades, args, start_ms, end_ms);
    costs_are_percentages_of_the_result(s.costs, s.total_pnl);
}

/// A deviation is given in percent of the size of the mean.
pub proof fn deviations_are_percentages_of_the_mean(avg: Binary64, std: Binary64)
    requires
        moderate(std, 300),
        moderate(avg.abs_spec(), 300),
        avg.abs_spec().reaches(1),
    ensures
        near(
            percent_of_mean(avg, std).units(),
            100 * std.units() * one(),
            avg.abs_spec().units(),
            2,
        ),
{
    lemma_percentage(std, avg.abs_spec());
    lemma_a_billionth_is_small();
}

/// The share of trades that gained after costs is their number in percent of all.
pub proof fn the_share_of_gains_counts_the_gains(trades: Seq<Trade>, args: BacktestArgs)
    requires
        1 <= gains(figures(trades, Figure::Net)),
        trades.len() < 2 * HIDDEN,
    ensures
        near(
            combo_of(trades, args).win_pct.units(),
            100 * gains(figures(trades, Figure::Net)) * one(),
            trades.len() as int,
            2,
        ),
{
    let w = gains(figures(trades, Figure::Net)) as int;
    let n = trades.len() as int;
    gains_and_losses_are_apart(figures(trades, Figure::Net));
    let hundred = Binary64::whole(100);
    lemma_moderate_whole(100);
    lemma_moderate(hundred, 53);
    lemma_near_exact(hundred.units());
    lemma_then_times_whole(hundred, 100 * one(), 1, 0, 53, w);
    lemma_then_over_whole(hundred.times_spec(Binary64::whole(w)), 100 * one() * w, 1, 1, 106, n);
    assert(100 * one() * w == 100 * w * one()) by (nonlinear_arith);
    assert(1 * n == n);
}

/// The members that are above zero are counted, each once.
pub proof fn gains_are_counted_one_by_one(xs: Seq<Binary64>, x: Binary64)
    ensures
        gains(Seq::<Binary64>::empty()) == 0,
        gains(xs.push(x)) == gains(xs) + (if x.above(0) {
            1nat
        } else {
            0
        }),
        losses(Seq::<Binary64>::empty()) == 0,
        losses(xs.push(x)) == losses(xs) + (if x.below(0) {
            1nat
        } else {
            0
        }),
{
    assert(xs.push(x).drop_last() =~= xs);
}

} // verus!
