//! What holds of the figures of every list of trades.

use crate::arithmetic::{
    difference_with_itself_is_zero, lemma_bracket_exists, lemma_nearest_is_a_magnitude,
    magnitude_of, nearest_of_a_double, representable_sums_are_exact, UNIT_EXPONENT,
};
use crate::backtest::{BacktestArgs, Trade};
use crate::binary64::{lemma_packed_units, mag_units, Binary64, HIDDEN, INFINITE};
use crate::metrics::{
    by_exit, curve, drawdown, exit_times, figures, gains, gains_and_losses_are_apart, losses,
    share, Figure,
};
use crate::monotony::{
    addition_keeps_the_order, division_keeps_the_order, lemma_difference_is_a_number,
    lemma_negation, lemma_whole, lemma_whole_product, lemma_whole_quotient, lemma_wholes_in_order,
    multiplication_keeps_the_order, rounding_keeps_the_order,
};
use crate::order::{descending, descending_is_a_stable_sort, sorted_indices, time_keys};
use crate::rounding::{brackets, nearest};
use crate::stats::sum_of;
use crate::sweep::{combo_of, ComboResult};
use vstd::arithmetic::power2::*;
use vstd::prelude::*;

verus! {

// The drawdown.

/// The running total of the first `k` results.
pub open spec fn total_after(xs: Seq<Binary64>, k: int) -> Binary64 {
    curve(xs.take(k)).running
}

/// All running totals are finite.
pub open spec fn totals_are_finite(xs: Seq<Binary64>) -> bool {
    forall|k: int| 0 <= k <= xs.len() ==> (#[trigger] total_after(xs, k)).finite()
}

/// The fall of the running total from one place to another.
pub open spec fn fall(xs: Seq<Binary64>, i: int, j: int) -> Binary64 {
    total_after(xs, i).minus_spec(total_after(xs, j))
}

proof fn lemma_totals_of_rest(xs: Seq<Binary64>)
    requires
        xs.len() > 0,
    ensures
        forall|k: int|
            0 <= k < xs.len() ==> #[trigger] total_after(xs, k) == total_after(xs.drop_last(), k),
        total_after(xs, xs.len() as int) == curve(xs).running,
        totals_are_finite(xs) ==> totals_are_finite(xs.drop_last()),
{
    let rest = xs.drop_last();
    assert forall|k: int| 0 <= k < xs.len() implies #[trigger] total_after(xs, k) == total_after(
        rest,
        k,
    ) by {
        assert(xs.take(k) =~= rest.take(k));
    }
    assert(xs.take(xs.len() as int) =~= xs);
    if totals_are_finite(xs) {
        assert forall|k: int| 0 <= k <= rest.len() implies (#[trigger] total_after(
            rest,
            k,
        )).finite() by {
            assert(total_after(xs, k) == total_after(rest, k));
        }
    }
}

/// The peak is the largest of the running totals.
proof fn lemma_peak(xs: Seq<Binary64>)
    requires
        totals_are_finite(xs),
    ensures
        exists|i: int| 0 <= i <= xs.len() && curve(xs).peak == #[trigger] total_after(xs, i),
        forall|i: int|
            0 <= i <= xs.len() ==> (#[trigger] total_after(xs, i)).at_most(curve(xs).peak),
    decreases xs.len(),
{
    if xs.len() == 0 {
        assert(xs.take(0) =~= xs);
        assert(total_after(xs, 0).finite());
        assert(curve(xs).peak == total_after(xs, 0));
    } else {
        let rest = xs.drop_last();
        let n = xs.len() as int;
        lemma_totals_of_rest(xs);
        lemma_peak(rest);
        let m = choose|i: int|
            0 <= i <= rest.len() && curve(rest).peak == #[trigger] total_after(rest, i);
        assert(total_after(xs, m) == total_after(rest, m));
        assert(total_after(xs, n).finite());
        assert(total_after(xs, m).finite());
        if curve(rest).peak.less(curve(xs).running) {
            assert(curve(xs).peak == total_after(xs, n));
        } else {
            assert(curve(xs).peak == total_after(xs, m));
        }
        assert forall|i: int| 0 <= i <= n implies (#[trigger] total_after(xs, i)).at_most(
            curve(xs).peak,
        ) by {
            if i < n {
                assert(total_after(rest, i).at_most(curve(rest).peak));
            }
        }
    }
}

/// The drawdown is the deepest fall of the running total from one place to a later one: no fall is
/// deeper, and one is as deep.
pub proof fn the_drawdown_is_the_deepest_fall(xs: Seq<Binary64>)
    requires
        totals_are_finite(xs),
    ensures
        forall|i: int, j: int|
            0 <= i <= j <= xs.len() ==> (#[trigger] fall(xs, i, j)).at_most(curve(xs).deepest),
        exists|i: int, j: int|
            0 <= i <= j <= xs.len() && curve(xs).deepest.units() == (
            #[trigger] fall(xs, i, j)).units(),
    decreases xs.len(),
{
    if xs.len() == 0 {
        assert(xs.take(0) =~= xs);
        assert(total_after(xs, 0).finite());
        lemma_whole(0);
        assert(0 * pow2(UNIT_EXPONENT as nat) == 0) by (nonlinear_arith);
        difference_with_itself_is_zero(total_after(xs, 0));
        lemma_difference_is_a_number(total_after(xs, 0), total_after(xs, 0));
        assert(fall(xs, 0, 0).units() == curve(xs).deepest.units());
    } else {
        let rest = xs.drop_last();
        let n = xs.len() as int;
        lemma_totals_of_rest(xs);
        the_drawdown_is_the_deepest_fall(rest);
        lemma_peak(xs);
        let (a, b) = choose|i: int, j: int|
            0 <= i <= j <= rest.len() && curve(rest).deepest.units() == (
            #[trigger] fall(rest, i, j)).units();
        assert(total_after(xs, a) == total_after(rest, a));
        assert(total_after(xs, b) == total_after(rest, b));
        assert(fall(xs, a, b) == fall(rest, a, b));
        assert(fall(rest, a, b).at_most(curve(rest).deepest));
        let top = choose|i: int|
            0 <= i <= n && curve(xs).peak == #[trigger] total_after(xs, i);
        assert(total_after(xs, n).finite() && total_after(xs, top).finite());
        lemma_difference_is_a_number(total_after(xs, top), total_after(xs, n));
        let last = curve(xs).peak.minus_spec(curve(xs).running);
        assert(last == fall(xs, top, n));
        if curve(rest).deepest.less(last) {
            assert(curve(xs).deepest.units() == fall(xs, top, n).units());
        } else {
            assert(curve(xs).deepest.units() == fall(xs, a, b).units());
        }
        assert forall|i: int, j: int| 0 <= i <= j <= n implies (#[trigger] fall(
            xs,
            i,
            j,
        )).at_most(curve(xs).deepest) by {
            assert(total_after(xs, i).finite() && total_after(xs, j).finite());
            if j < n {
                assert(fall(xs, i, j) == fall(rest, i, j));
                assert(fall(rest, i, j).at_most(curve(rest).deepest));
            } else {
                lemma_difference_is_a_number(total_after(xs, i), total_after(xs, n));
                assert(total_after(xs, i).at_most(curve(xs).peak));
                addition_keeps_the_order(
                    total_after(xs, i),
                    curve(xs).peak,
                    total_after(xs, n).negated_spec(),
                );
            }
        }
    }
}

/// Where the first result is a loss, there is a drawdown.
pub proof fn a_first_loss_is_a_drawdown(xs: Seq<Binary64>)
    requires
        totals_are_finite(xs),
        xs.len() > 0,
        xs[0].below(0),
        xs[0].finite(),
    ensures
        curve(xs).deepest.above(0),
{
    let zero = Binary64::whole(0);
    let x = xs[0];
    reveal_with_fuel(curve, 2);
    lemma_whole(0);
    assert(0 * pow2(UNIT_EXPONENT as nat) == 0) by (nonlinear_arith);
    assert(xs.take(0) =~= Seq::<Binary64>::empty());
    assert(xs.take(1).drop_last() =~= Seq::<Binary64>::empty());
    assert(xs.take(1).last() == x);
    representable_sums_are_exact(zero, x, x);
    let e = total_after(xs, 1);
    assert(e == zero.plus_spec(x));
    lemma_negation(e);
    representable_sums_are_exact(zero, e.negated_spec(), e.negated_spec());
    assert(fall(xs, 0, 1) == zero.plus_spec(e.negated_spec()));
    the_drawdown_is_the_deepest_fall(xs);
    assert(fall(xs, 0, 1).at_most(curve(xs).deepest));
}

// Shares.

/// A machine count has a finite double, and a larger count no smaller one.
proof fn lemma_counts(n: nat, total: nat)
    requires
        n <= total <= u64::MAX,
    ensures
        Binary64::whole(n as int).at_most(Binary64::whole(total as int)),
        Binary64::whole(0).at_most(Binary64::whole(n as int)),
        Binary64::whole(total as int).finite(),
        total > 0 ==> Binary64::whole(total as int).above(0),
{
    reveal(Binary64::whole);
    let one = pow2(UNIT_EXPONENT as nat);
    let top = (1087 * HIDDEN) as nat;
    lemma2_to64();
    lemma2_to64_rest();
    lemma_pow2_pos(UNIT_EXPONENT as nat);
    lemma_packed_units(1086, HIDDEN as nat);
    lemma_pow2_adds(52, 1086);
    lemma_pow2_adds(64, UNIT_EXPONENT as nat);
    assert(mag_units(top) == pow2(64) * one);
    nearest_of_a_double(top, 1);
    assert(mag_units(top) * 1 == mag_units(top));
    assert(0 * one <= n * one <= total * one <= pow2(64) * one) by (nonlinear_arith)
        requires
            0 <= n <= total <= pow2(64),
            one > 0,
    ;
    rounding_keeps_the_order((0 * one) as nat, n * one, 1);
    rounding_keeps_the_order(n * one, total * one, 1);
    rounding_keeps_the_order(total * one, pow2(64) * one, 1);
    let a = Binary64::whole(n as int);
    let b = Binary64::whole(total as int);
    lemma_whole(0);
    crate::binary64::lemma_key_order(a, b);
    crate::binary64::lemma_key_order(Binary64::whole(0), a);
    if total > 0 {
        lemma_wholes_in_order(0, 1);
        lemma_whole(1);
        assert(1 * one <= total * one) by (nonlinear_arith)
            requires
                total >= 1,
                one > 0,
        ;
        rounding_keeps_the_order(1 * one, total * one, 1);
        crate::binary64::lemma_key_order(Binary64::whole(1), b);
    }
}

/// A number over itself is one.
proof fn lemma_over_itself(d: Binary64)
    requires
        d.finite(),
        d.above(0),
    ensures
        d.over_spec(d).units() == Binary64::whole(1).units(),
        !d.over_spec(d).nan(),
{
    reveal(Binary64::over_spec);
    crate::monotony::lemma_positive(d);
    lemma_whole(1);
    let one = pow2(UNIT_EXPONENT as nat);
    let x = mag_units(d.mag());
    assert(1 * one == one) by (nonlinear_arith);
    assert(x * one == one * x) by (nonlinear_arith);
    nearest_of_a_double(Binary64::whole(1).mag(), x);
}

/// Zero over a number above zero is zero.
proof fn lemma_zero_over(d: Binary64)
    requires
        d.finite(),
        d.above(0),
    ensures
        Binary64::whole(0).over_spec(d).units() == Binary64::whole(0).units(),
        !Binary64::whole(0).over_spec(d).nan(),
{
    reveal(Binary64::over_spec);
    crate::monotony::lemma_positive(d);
    lemma_whole(0);
    let one = pow2(UNIT_EXPONENT as nat);
    let x = mag_units(d.mag());
    let zero = Binary64::whole(0);
    assert(0 * one == 0) by (nonlinear_arith);
    crate::binary64::lemma_key_order(zero, zero);
    assert(zero.mag() == 0);
    assert(mag_units(0) * one == 0 && mag_units(0) * x == 0) by (nonlinear_arith)
        requires
            mag_units(0) == 0,
    ;
    nearest_of_a_double(0, x);
}

/// A share of a count is from 0 to 100 percent.
pub proof fn shares_are_percentages(n: nat, total: nat)
    requires
        n <= total <= u64::MAX,
        total > 0,
    ensures
        share(n, total).reaches(0),
        share(n, total).at_most(Binary64::whole(100)),
{
    let d = Binary64::whole(total as int);
    let q = Binary64::whole(n as int).over_spec(d);
    let hundred = Binary64::whole(100);
    lemma_counts(n, total);
    lemma_over_itself(d);
    lemma_zero_over(d);
    lemma_whole(0);
    lemma_whole(1);
    lemma_whole(100);
    division_keeps_the_order(Binary64::whole(0), Binary64::whole(n as int), d);
    division_keeps_the_order(Binary64::whole(n as int), d, d);
    assert(Binary64::whole(0).at_most(q) && q.at_most(Binary64::whole(1)));
    multiplication_keeps_the_order(Binary64::whole(0), q, hundred);
    multiplication_keeps_the_order(q, Binary64::whole(1), hundred);
    lemma_whole_product(0, 100);
    lemma_whole_product(1, 100);
}

/// The share of gains of a run is from 0 to 100 percent, for as many trades as a double can count
/// by the hundred.
pub proof fn the_share_of_gains_is_a_percentage(trades: Seq<Trade>, args: BacktestArgs)
    requires
        100 * trades.len() < 2 * HIDDEN,
    ensures
        combo_of(trades, args).win_pct.reaches(0),
        combo_of(trades, args).win_pct.at_most(Binary64::whole(100)),
{
    let net = figures(trades, Figure::Net);
    let w = gains(net) as int;
    let n = trades.len() as int;
    gains_and_losses_are_apart(net);
    lemma_whole(0);
    lemma_wholes_in_order(0, 100);
    if n > 0 {
        let d = Binary64::whole(n);
        lemma_whole(n);
        lemma_whole(w);
        lemma_whole(100);
        lemma_whole_product(100, w);
        lemma_whole_product(100, n);
        lemma_whole_quotient(100, n);
        lemma_wholes_in_order(0, 100 * w);
        lemma_wholes_in_order(100 * w, 100 * n);
        let part = Binary64::whole(100).times_spec(Binary64::whole(w));
        lemma_zero_over(d);
        division_keeps_the_order(Binary64::whole(0), part, d);
        division_keeps_the_order(part, Binary64::whole(100 * n), d);
    }
}

/// A run without trades comes to nothing.
pub proof fn no_trades_come_to_nothing(args: BacktestArgs)
    ensures
        ({
            let c = combo_of(Seq::<Trade>::empty(), args);
            &&& c.trades == 0
            &&& c.win_pct.units() == 0
            &&& c.net_pnl.units() == 0
            &&& c.gross_pnl.units() == 0
            &&& c.total_costs.units() == 0
            &&& c.max_drawdown.units() == 0
        }),
{
    let none = Seq::<Trade>::empty();
    lemma_whole(0);
    assert(0 * pow2(UNIT_EXPONENT as nat) == 0) by (nonlinear_arith);
    assert(mag_units(0) == 0);
    assert(figures(none, Figure::Net) =~= Seq::<Binary64>::empty());
    assert(figures(none, Figure::Gross) =~= Seq::<Binary64>::empty());
    assert(figures(none, Figure::BothCosts) =~= Seq::<Binary64>::empty());
    assert(time_keys(exit_times(none)) =~= Seq::<u128>::empty());
    assert(by_exit(none) =~= none);
}

// Sums.

/// The exact sum, in units.
pub open spec fn exact_sum(xs: Seq<Binary64>) -> int
    decreases xs.len(),
{
    if xs.len() == 0 {
        0
    } else {
        exact_sum(xs.drop_last()) + xs.last().units()
    }
}

/// The exact sum of the sizes of the members, in units.
pub open spec fn sum_of_sizes(xs: Seq<Binary64>) -> nat
    decreases xs.len(),
{
    if xs.len() == 0 {
        0
    } else {
        sum_of_sizes(xs.drop_last()) + magnitude_of(xs.last().units())
    }
}

/// All partial sums are finite.
pub open spec fn sums_are_finite(xs: Seq<Binary64>) -> bool {
    forall|k: int| 0 <= k <= xs.len() ==> (#[trigger] sum_of(xs.take(k))).finite()
}

/// How far two numbers are apart.
pub open spec fn distance(a: int, b: int) -> nat {
    magnitude_of(a - b)
}

/// A magnitude is at least 2^52 times the step to the next one, or the step is one unit.
pub proof fn lemma_step_to_the_next(k: nat)
    ensures
        k < HIDDEN ==> mag_units(k) == k && mag_units(k + 1) == k + 1,
        k >= HIDDEN ==> (mag_units(k + 1) - mag_units(k)) * HIDDEN <= mag_units(k),
{
    let h = HIDDEN as int;
    lemma2_to64();
    if k < HIDDEN {
        lemma_packed_units(0, k);
        lemma_packed_units(0, k + 1);
        assert(k * 1 == k && (k + 1) * 1 == k + 1);
    } else {
        let e = (k as int / h - 1) as nat;
        let q = (h + k as int % h) as nat;
        assert(k == e * h + q) by {
            vstd::arithmetic::div_mod::lemma_fundamental_div_mod(k as int, h);
            assert(h * (k as int / h) == e * h + h) by (nonlinear_arith)
                requires
                    e == k as int / h - 1,
            ;
        }
        lemma_packed_units(e, q);
        lemma_packed_units(e, q + 1);
        let p = pow2(e) as int;
        lemma_pow2_pos(e);
        assert((q + 1) * p - q * p == p) by (nonlinear_arith);
        assert(p * h <= q * p) by (nonlinear_arith)
            requires
                q >= h,
                p > 0,
        ;
    }
}

/// Rounding a number changes it by at most one part in 2^53.
proof fn lemma_rounding_error(n: nat)
    requires
        nearest(n, 1) < INFINITE,
    ensures
        2 * HIDDEN * distance(mag_units(nearest(n, 1)) as int, n as int) <= n,
{
    let inf = INFINITE as nat;
    assert(mag_units(inf) * 1 == mag_units(inf));
    lemma_bracket_exists(n, 1, inf);
    let k = choose|k: nat| brackets(k, n, 1);
    assert(mag_units(k) * 1 == mag_units(k) && mag_units(k + 1) * 1 == mag_units(k + 1));
    crate::rounding::lemma_nearest_at(k, n, 1);
    lemma_step_to_the_next(k);
    let step = mag_units(k + 1) - mag_units(k);
    let off = distance(mag_units(nearest(n, 1)) as int, n as int) as int;
    assert(k < INFINITE);
    assert(2 * off <= step);
    if k < HIDDEN {
        assert(off == 0);
    } else {
        assert(2 * HIDDEN * off <= step * HIDDEN) by (nonlinear_arith)
            requires
                2 * off <= step,
        ;
    }
}

/// A finite sum of two numbers is off by at most one part in 2^53, and both are finite.
proof fn lemma_addition_error(a: Binary64, b: Binary64)
    requires
        a.plus_spec(b).finite(),
    ensures
        b.finite(),
        2 * HIDDEN * distance(a.plus_spec(b).units(), a.units() + b.units()) <= magnitude_of(
            a.units() + b.units(),
        ),
{
    reveal(Binary64::plus_spec);
    let sum = a.units() + b.units();
    assert(mag_units(0) == 0);
    if sum != 0 {
        lemma_nearest_is_a_magnitude(magnitude_of(sum), 1);
        lemma_rounding_error(magnitude_of(sum));
    }
}

/// A sum is off by at most one part in 2^52 of the sum of the sizes for each member.
pub proof fn sums_are_nearly_exact(xs: Seq<Binary64>)
    requires
        sums_are_finite(xs),
        xs.len() <= HIDDEN,
    ensures
        HIDDEN * distance(sum_of(xs).units(), exact_sum(xs)) <= xs.len() * sum_of_sizes(xs),
        magnitude_of(exact_sum(xs)) <= sum_of_sizes(xs),
    decreases xs.len(),
{
    if xs.len() == 0 {
        assert(mag_units(0) == 0);
        assert(distance(sum_of(xs).units(), exact_sum(xs)) == 0);
    } else {
        let rest = xs.drop_last();
        let x = xs.last();
        let m = rest.len() as int;
        assert forall|k: int| 0 <= k <= rest.len() implies (#[trigger] sum_of(
            rest.take(k),
        )).finite() by {
            assert(rest.take(k) =~= xs.take(k));
            assert(sum_of(xs.take(k)).finite());
        }
        sums_are_nearly_exact(rest);
        assert(xs.take(xs.len() as int) =~= xs);
        assert(sum_of(xs.take(xs.len() as int)).finite());
        lemma_addition_error(sum_of(rest), x);
        let small = sum_of_sizes(rest) as int;
        let all = sum_of_sizes(xs) as int;
        let h = HIDDEN as int;
        let whole = sum_of(rest).units() + x.units();
        let before = distance(sum_of(rest).units(), exact_sum(rest)) as int;
        let step = distance(sum_of(xs).units(), whole) as int;
        let off = distance(sum_of(xs).units(), exact_sum(xs)) as int;
        let size = magnitude_of(whole) as int;
        assert(off <= step + before);
        assert(size <= all + before);
        assert(h * before <= m * small && 2 * h * step <= size);
        assert(h * before <= h * all) by (nonlinear_arith)
            requires
                h * before <= m * small,
                0 <= m <= h,
                0 <= small <= all,
        ;
        assert(before <= all) by (nonlinear_arith)
            requires
                h * before <= h * all,
                h > 0,
        ;
        assert(h * off <= (m + 1) * all) by (nonlinear_arith)
            requires
                off <= step + before,
                2 * h * step <= size,
                size <= all + before,
                before <= all,
                h * before <= m * small,
                0 <= m,
                0 <= small <= all,
                h > 0,
        ;
        assert(xs.len() * sum_of_sizes(xs) == (m + 1) * all);
    }
}

// The order of the trades.

/// What one member adds to a count.
spec fn one_if(b: bool) -> nat {
    if b {
        1
    } else {
        0
    }
}

/// What a member adds to the counts and to the exact sums, wherever it stands.
proof fn lemma_without(xs: Seq<Binary64>, i: int)
    requires
        0 <= i < xs.len(),
    ensures
        gains(xs) == gains(xs.remove(i)) + one_if(xs[i].above(0)),
        losses(xs) == losses(xs.remove(i)) + one_if(xs[i].below(0)),
        exact_sum(xs) == exact_sum(xs.remove(i)) + xs[i].units(),
        sum_of_sizes(xs) == sum_of_sizes(xs.remove(i)) + magnitude_of(xs[i].units()),
    decreases xs.len(),
{
    if i == xs.len() - 1 {
        assert(xs.remove(i) =~= xs.drop_last());
    } else {
        let rest = xs.drop_last();
        lemma_without(rest, i);
        assert(xs.remove(i).drop_last() =~= rest.remove(i));
        assert(xs.remove(i).last() == xs.last());
    }
}

/// Both lists hold the same trades, each as often.
pub open spec fn same_trades(a: Seq<Trade>, b: Seq<Trade>) -> bool {
    a.to_multiset() == b.to_multiset()
}

/// The order in which trades are listed does not matter to their number, to the counts of gains
/// and losses and to the exact sums.
pub proof fn counts_and_exact_sums_hold_in_any_order(a: Seq<Trade>, b: Seq<Trade>, f: Figure)
    requires
        same_trades(a, b),
    ensures
        a.len() == b.len(),
        gains(figures(a, f)) == gains(figures(b, f)),
        losses(figures(a, f)) == losses(figures(b, f)),
        exact_sum(figures(a, f)) == exact_sum(figures(b, f)),
        sum_of_sizes(figures(a, f)) == sum_of_sizes(figures(b, f)),
    decreases a.len(),
{
    a.to_multiset_ensures();
    b.to_multiset_ensures();
    if a.len() == 0 {
        assert(figures(a, f) =~= figures(b, f));
    } else {
        let m = a.len() - 1;
        assert(a.contains(a[m]));
        assert(b.to_multiset().count(a[m]) > 0);
        let i = choose|i: int| 0 <= i < b.len() && b[i] == a[m];
        let ra = a.remove(m);
        let rb = b.remove(i);
        assert(ra.to_multiset() == rb.to_multiset());
        counts_and_exact_sums_hold_in_any_order(ra, rb, f);
        lemma_without(figures(a, f), m);
        lemma_without(figures(b, f), i);
        assert(figures(a, f).remove(m) =~= figures(ra, f));
        assert(figures(b, f).remove(i) =~= figures(rb, f));
    }
}

/// No two trades ended together.
pub open spec fn exits_differ(trades: Seq<Trade>) -> bool {
    forall|i: int, j: int|
        0 <= i < j < trades.len() ==> (#[trigger] trades[i]).exit_time_sec != (
        #[trigger] trades[j]).exit_time_sec
}

/// The one ended before the other, all along.
spec fn exits_rise(trades: Seq<Trade>) -> bool {
    forall|i: int, j: int|
        0 <= i < j < trades.len() ==> (#[trigger] trades[i]).exit_time_sec < (
        #[trigger] trades[j]).exit_time_sec
}

/// A trade of the one list is a trade of the other.
spec fn same_members(a: Seq<Trade>, b: Seq<Trade>) -> bool {
    forall|t: Trade| #[trigger] a.contains(t) <==> b.contains(t)
}

proof fn lemma_by_exit(trades: Seq<Trade>)
    requires
        trades.len() <= usize::MAX,
        exits_differ(trades),
    ensures
        exits_rise(by_exit(trades)),
        same_members(trades, by_exit(trades)),
{
    let keys = time_keys(exit_times(trades));
    let order = descending(keys);
    let sorted = by_exit(trades);
    descending_is_a_stable_sort(keys);
    assert(sorted_indices(order, keys, keys.len()));
    assert forall|i: int, j: int| 0 <= i < j < sorted.len() implies (
    #[trigger] sorted[i]).exit_time_sec < (#[trigger] sorted[j]).exit_time_sec by {
        let a = order[i];
        let b = order[j];
        assert(a < keys.len() && b < keys.len());
        assert(keys[a as int] > keys[b as int] || (keys[a as int] == keys[b as int] && a < b));
        assert(keys[a as int] == (i64::MAX - trades[a as int].exit_time_sec) as u128);
        assert(keys[b as int] == (i64::MAX - trades[b as int].exit_time_sec) as u128);
        if keys[a as int] == keys[b as int] {
            assert(trades[a as int].exit_time_sec != trades[b as int].exit_time_sec);
        }
    }
    assert forall|t: Trade| #[trigger] trades.contains(t) <==> sorted.contains(t) by {
        if trades.contains(t) {
            let k = choose|k: int| 0 <= k < trades.len() && trades[k] == t;
            assert(order.contains(k as usize));
            let i = choose|i: int| 0 <= i < order.len() && order[i] == k as usize;
            assert(sorted[i] == t);
        }
        if sorted.contains(t) {
            let i = choose|i: int| 0 <= i < sorted.len() && sorted[i] == t;
            assert(order[i] < keys.len());
            assert(trades[order[i] as int] == t);
        }
    }
}

/// Two lists of the same trades, each as they ended, are one list.
proof fn lemma_one_list(a: Seq<Trade>, b: Seq<Trade>)
    requires
        exits_rise(a),
        exits_rise(b),
        same_members(a, b),
    ensures
        a == b,
    decreases a.len(),
{
    if a.len() == 0 {
        if b.len() > 0 {
            assert(b.contains(b[0]));
            assert(a.contains(b[0]));
        }
        assert(a =~= b);
    } else {
        let m = a.len() - 1;
        assert(a.contains(a[m]));
        let j = choose|j: int| 0 <= j < b.len() && b[j] == a[m];
        let n = b.len() - 1;
        assert(b.contains(b[n]));
        assert(a.contains(b[n]));
        let i = choose|i: int| 0 <= i < a.len() && a[i] == b[n];
        if j < n {
            assert(b[j].exit_time_sec < b[n].exit_time_sec);
            if i < m {
                assert(a[i].exit_time_sec < a[m].exit_time_sec);
            }
        }
        assert(a[m] == b[n]);
        let ra = a.drop_last();
        let rb = b.drop_last();
        assert forall|t: Trade| #[trigger] ra.contains(t) <==> rb.contains(t) by {
            if ra.contains(t) {
                let k = choose|k: int| 0 <= k < ra.len() && ra[k] == t;
                assert(a[k] == t);
                assert(a[k].exit_time_sec < a[m].exit_time_sec);
                assert(a.contains(t));
                let l = choose|l: int| 0 <= l < b.len() && b[l] == t;
                assert(l != n);
                assert(rb[l] == t);
            }
            if rb.contains(t) {
                let k = choose|k: int| 0 <= k < rb.len() && rb[k] == t;
                assert(b[k] == t);
                assert(b[k].exit_time_sec < b[n].exit_time_sec);
                assert(b.contains(t));
                assert(a.contains(t));
                let l = choose|l: int| 0 <= l < a.len() && a[l] == t;
                assert(l != m);
                assert(ra[l] == t);
            }
        }
        assert forall|x: int, y: int| 0 <= x < y < ra.len() implies (
        #[trigger] ra[x]).exit_time_sec < (#[trigger] ra[y]).exit_time_sec by {
            assert(ra[x] == a[x] && ra[y] == a[y]);
        }
        assert forall|x: int, y: int| 0 <= x < y < rb.len() implies (
        #[trigger] rb[x]).exit_time_sec < (#[trigger] rb[y]).exit_time_sec by {
            assert(rb[x] == b[x] && rb[y] == b[y]);
        }
        lemma_one_list(ra, rb);
        assert(a =~= ra.push(a[m]));
        assert(b =~= rb.push(b[n]));
    }
}

/// What ended at different times in one order did so in any other.
proof fn lemma_exits_differ(a: Seq<Trade>, b: Seq<Trade>)
    requires
        exits_differ(a),
        same_trades(a, b),
    ensures
        exits_differ(b),
        same_members(a, b),
{
    a.to_multiset_ensures();
    b.to_multiset_ensures();
    assert forall|t: Trade| #[trigger] a.contains(t) <==> b.contains(t) by {
        assert(a.to_multiset().count(t) == b.to_multiset().count(t));
    }
    assert(a.no_duplicates()) by {
        assert forall|i: int, j: int|
            0 <= i < a.len() && 0 <= j < a.len() && i != j implies a[i] != a[j] by {
            let k = if i < j { i } else { j };
            let l = if i < j { j } else { i };
            assert(a[k].exit_time_sec != a[l].exit_time_sec);
        }
    }
    a.lemma_multiset_has_no_duplicates();
    b.lemma_multiset_has_no_duplicates_conv();
    assert forall|i: int, j: int| 0 <= i < j < b.len() implies (#[trigger] b[i]).exit_time_sec != (
    #[trigger] b[j]).exit_time_sec by {
        assert(b[i] != b[j]);
        assert(b.contains(b[i]) && b.contains(b[j]));
        assert(a.contains(b[i]) && a.contains(b[j]));
        let k = choose|k: int| 0 <= k < a.len() && a[k] == b[i];
        let l = choose|l: int| 0 <= l < a.len() && a[l] == b[j];
        if k < l {
            assert(a[k].exit_time_sec != a[l].exit_time_sec);
        } else {
            assert(a[l].exit_time_sec != a[k].exit_time_sec);
        }
    }
}

/// The order in which trades with different exits are listed does not matter to the order in which
/// they ended, nor to the drawdown.
pub proof fn the_order_of_the_trades_does_not_matter(a: Seq<Trade>, b: Seq<Trade>, f: Figure)
    requires
        a.len() <= usize::MAX,
        exits_differ(a),
        same_trades(a, b),
    ensures
        by_exit(a) == by_exit(b),
        drawdown(a, f) == drawdown(b, f),
{
    counts_and_exact_sums_hold_in_any_order(a, b, f);
    lemma_exits_differ(a, b);
    lemma_by_exit(a);
    lemma_by_exit(b);
    assert(same_members(by_exit(a), by_exit(b))) by {
        assert forall|t: Trade| #[trigger] by_exit(a).contains(t) <==> by_exit(b).contains(t) by {
            assert(a.contains(t) <==> by_exit(a).contains(t));
            assert(b.contains(t) <==> by_exit(b).contains(t));
            assert(a.contains(t) <==> b.contains(t));
        }
    }
    lemma_one_list(by_exit(a), by_exit(b));
}

/// What a run comes to does not depend on the order in which its trades are listed, but for the
/// sums and what is computed from them, and for the drawdown where trades ended together.
pub proof fn a_run_does_not_depend_on_the_order_of_its_trades(
    a: Seq<Trade>,
    b: Seq<Trade>,
    args: BacktestArgs,
)
    requires
        a.len() <= usize::MAX,
        same_trades(a, b),
    ensures
        combo_of(b, args) == (ComboResult {
            net_pnl: combo_of(b, args).net_pnl,
            gross_pnl: combo_of(b, args).gross_pnl,
            total_costs: combo_of(b, args).total_costs,
            annualized_pct: combo_of(b, args).annualized_pct,
            max_drawdown: combo_of(b, args).max_drawdown,
            ..combo_of(a, args)
        }),
        exits_differ(a) ==> combo_of(b, args).max_drawdown == combo_of(a, args).max_drawdown,
{
    counts_and_exact_sums_hold_in_any_order(a, b, Figure::Net);
    if exits_differ(a) {
        the_order_of_the_trades_does_not_matter(a, b, Figure::Net);
    }
}

/// Two orders of the same trades make sums that differ by at most two parts in 2^52 of the sum of
/// the sizes for each trade.
pub proof fn sums_agree_up_to_rounding(a: Seq<Trade>, b: Seq<Trade>, f: Figure)
    requires
        a.len() <= HIDDEN,
        same_trades(a, b),
        sums_are_finite(figures(a, f)),
        sums_are_finite(figures(b, f)),
    ensures
        HIDDEN * distance(sum_of(figures(a, f)).units(), sum_of(figures(b, f)).units()) <= 2
            * a.len() * sum_of_sizes(figures(a, f)),
{
    counts_and_exact_sums_hold_in_any_order(a, b, f);
    sums_are_nearly_exact(figures(a, f));
    sums_are_nearly_exact(figures(b, f));
    let n = a.len();
    let sizes = sum_of_sizes(figures(a, f));
    assert(2 * n * sizes == n * sizes + n * sizes) by (nonlinear_arith);
}

/// The sums of a run, of its results before and after costs and of its costs, do not depend on the
/// order in which its trades are listed, up to rounding.
pub proof fn the_sums_of_a_run_agree_up_to_rounding(
    a: Seq<Trade>,
    b: Seq<Trade>,
    args: BacktestArgs,
)
    requires
        a.len() <= HIDDEN,
        same_trades(a, b),
        sums_are_finite(figures(a, Figure::Net)),
        sums_are_finite(figures(b, Figure::Net)),
        sums_are_finite(figures(a, Figure::Gross)),
        sums_are_finite(figures(b, Figure::Gross)),
        sums_are_finite(figures(a, Figure::BothCosts)),
        sums_are_finite(figures(b, Figure::BothCosts)),
    ensures
        HIDDEN * distance(combo_of(a, args).net_pnl.units(), combo_of(b, args).net_pnl.units())
            <= 2 * a.len() * sum_of_sizes(figures(a, Figure::Net)),
        HIDDEN * distance(
            combo_of(a, args).gross_pnl.units(),
            combo_of(b, args).gross_pnl.units(),
        ) <= 2 * a.len() * sum_of_sizes(figures(a, Figure::Gross)),
        HIDDEN * distance(
            combo_of(a, args).total_costs.units(),
            combo_of(b, args).total_costs.units(),
        ) <= 2 * a.len() * sum_of_sizes(figures(a, Figure::BothCosts)),
{
    sums_agree_up_to_rounding(a, b, Figure::Net);
    sums_agree_up_to_rounding(a, b, Figure::Gross);
    sums_agree_up_to_rounding(a, b, Figure::BothCosts);
}

} // verus!
