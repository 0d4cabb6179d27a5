//! Rounding keeps the order of numbers, and so do sums, products and quotients. What follows for
//! the score is the range of each of its parts and which way it goes with each reading; what
//! follows for the costs is that they never improve a result, and that cheaper entries lower the
//! rate that pays for them; what follows for a candidate is how low its score can be.

use crate::arithmetic::{
    lemma_bracket_exists, lemma_nearest_is_a_magnitude, magnitude_of, nearest_of_a_double, signed,
    small_wholes_are_exact, wholes_carry_their_sign, UNIT_EXPONENT,
};
use crate::backtest::{break_even_spec, taker_cost, BacktestArgs};
use crate::binary64::{
    lemma_mag_units_increase, lemma_packed_units, mag_units, Binary64, HIDDEN, INFINITE,
};
use crate::rounding::{brackets, nearest};
use crate::signals::Reading;
use crate::stats::{
    clamped, liquidity_part, rate_part, score_spec, stability_part, trend_part, TrendDir,
};
use crate::watch::{candidate_at, CandidateRow};
use vstd::arithmetic::power2::*;
use vstd::prelude::*;

verus! {

/// A larger number is never rounded to a smaller double.
pub proof fn rounding_keeps_the_order(a: nat, b: nat, den: nat)
    requires
        den > 0,
        a <= b,
    ensures
        nearest(a, den) <= nearest(b, den),
{
    let inf = INFINITE as nat;
    lemma_nearest_is_a_magnitude(a, den);
    if b < mag_units(inf) * den {
        lemma_bracket_exists(a, den, inf);
        lemma_bracket_exists(b, den, inf);
        let ka = choose|k: nat| brackets(k, a, den);
        let kb = choose|k: nat| brackets(k, b, den);
        if ka > kb {
            if ka > kb + 1 {
                lemma_mag_units_increase(kb + 1, ka);
            }
            assert(mag_units(kb + 1) * den <= mag_units(ka) * den) by (nonlinear_arith)
                requires
                    mag_units(kb + 1) <= mag_units(ka),
                    den > 0,
            ;
            assert(false);
        }
    }
}

/// A larger magnitude is at least as large a number.
pub proof fn lemma_mag_units_keep(a: nat, b: nat)
    requires
        a <= b,
    ensures
        mag_units(a) <= mag_units(b),
{
    if a < b {
        lemma_mag_units_increase(a, b);
    }
}

/// The value of a magnitude with a sign.
pub proof fn lemma_signed_units(negative: bool, mag: nat)
    requires
        mag <= INFINITE,
    ensures
        !signed(negative, mag).nan(),
        signed(negative, mag).units() == (if negative {
            -(mag_units(mag) as int)
        } else {
            mag_units(mag) as int
        }),
{
    lemma_mag_units_keep(0, mag);
}

/// A quotient of whole numbers with a sign keeps the order of the dividends.
proof fn lemma_signed_order(na: bool, a: nat, nb: bool, b: nat, den: nat)
    requires
        den > 0,
        (if na {
            -(a as int)
        } else {
            a as int
        }) <= (if nb {
            -(b as int)
        } else {
            b as int
        }),
    ensures
        signed(na, nearest(a, den)).at_most(signed(nb, nearest(b, den))),
{
    lemma_nearest_is_a_magnitude(a, den);
    lemma_nearest_is_a_magnitude(b, den);
    lemma_signed_units(na, nearest(a, den));
    lemma_signed_units(nb, nearest(b, den));
    if a <= b {
        rounding_keeps_the_order(a, b, den);
        lemma_mag_units_keep(nearest(a, den), nearest(b, den));
    }
    if b <= a {
        rounding_keeps_the_order(b, a, den);
        lemma_mag_units_keep(nearest(b, den), nearest(a, den));
    }
    nearest_of_a_double(0, den);
    assert(mag_units(0) * den == 0) by (nonlinear_arith)
        requires
            mag_units(0) == 0,
    ;
}

/// Every number lies between the two infinities.
pub proof fn lemma_between_infinities(x: Binary64)
    requires
        !x.nan(),
    ensures
        -(mag_units(INFINITE as nat) as int) <= x.units() <= mag_units(INFINITE as nat),
        !x.finite() ==> x.mag() == INFINITE,
{
    lemma_mag_units_keep(x.mag(), INFINITE as nat);
}

/// An infinity is equalled by nothing but itself.
pub proof fn lemma_finite_is_smaller(x: Binary64)
    requires
        x.finite(),
    ensures
        -(mag_units(INFINITE as nat) as int) < x.units() < mag_units(INFINITE as nat),
{
    lemma_mag_units_increase(x.mag(), INFINITE as nat);
}

/// A sum of finite numbers is the exact one, rounded.
proof fn lemma_sum_units(a: Binary64, c: Binary64)
    requires
        a.finite(),
        c.finite(),
    ensures
        !a.plus_spec(c).nan(),
        a.plus_spec(c).units() == signed(
            a.units() + c.units() < 0,
            nearest(magnitude_of(a.units() + c.units()), 1),
        ).units(),
{
    reveal(Binary64::plus_spec);
    let sum = a.units() + c.units();
    lemma_nearest_is_a_magnitude(magnitude_of(sum), 1);
    if sum == 0 {
        nearest_of_a_double(0, 1);
        assert(mag_units(0) * 1 == 0);
    }
}

/// A sum grows with its first operand, unless it is not a number.
pub proof fn addition_keeps_the_order(a: Binary64, b: Binary64, c: Binary64)
    requires
        a.at_most(b),
        !a.plus_spec(c).nan(),
        !b.plus_spec(c).nan(),
    ensures
        a.plus_spec(c).at_most(b.plus_spec(c)),
{
    lemma_between_infinities(a);
    lemma_between_infinities(b);
    lemma_between_infinities(a.plus_spec(c));
    lemma_between_infinities(b.plus_spec(c));
    if a.finite() && b.finite() && c.finite() {
        lemma_sum_units(a, c);
        lemma_sum_units(b, c);
        let s = a.units() + c.units();
        let t = b.units() + c.units();
        lemma_signed_order(s < 0, magnitude_of(s), t < 0, magnitude_of(t), 1);
    } else {
        reveal(Binary64::plus_spec);
        if a.finite() {
            lemma_finite_is_smaller(a);
        }
        if b.finite() {
            lemma_finite_is_smaller(b);
        }
    }
}

/// Negation turns the order round.
pub proof fn lemma_negation(a: Binary64)
    ensures
        a.negated_spec().units() == -a.units(),
        a.negated_spec().nan() == a.nan(),
        a.negated_spec().finite() == a.finite(),
{
    assert(mag_units(0) == 0);
}

/// The magnitude of a number without its sign.
pub proof fn lemma_positive(d: Binary64)
    requires
        d.above(0),
    ensures
        !d.sign(),
        d.mag() > 0,
        mag_units(d.mag()) > 0,
{
    small_wholes_are_exact(0);
    assert(0 * pow2(UNIT_EXPONENT as nat) == 0) by (nonlinear_arith);
    assert(mag_units(0) == 0);
    if d.mag() > 0 {
        lemma_mag_units_increase(0, d.mag());
    }
}

/// A quotient grows with its dividend where the divisor is finite and above zero.
pub proof fn division_keeps_the_order(a: Binary64, b: Binary64, d: Binary64)
    requires
        a.at_most(b),
        d.above(0),
        d.finite(),
    ensures
        a.over_spec(d).at_most(b.over_spec(d)),
{
    reveal(Binary64::over_spec);
    lemma_positive(d);
    lemma_between_infinities(a);
    lemma_between_infinities(b);
    let one = pow2(UNIT_EXPONENT as nat);
    let den = mag_units(d.mag());
    let x = mag_units(a.mag());
    let y = mag_units(b.mag());
    lemma_nearest_is_a_magnitude(x * one, den);
    lemma_nearest_is_a_magnitude(y * one, den);
    lemma_signed_units(a.sign(), INFINITE as nat);
    lemma_signed_units(b.sign(), INFINITE as nat);
    if a.finite() && b.finite() {
        lemma_scaled(a.units(), b.units(), one as int);
        assert((x * one) as int == x as int * one as int && -(x as int) * one == -(x * one))
            by (nonlinear_arith);
        assert(-(y as int) * one == -(y * one)) by (nonlinear_arith);
        lemma_signed_order(a.sign(), x * one, b.sign(), y * one, den);
    } else {
        if a.finite() {
            lemma_finite_is_smaller(a);
            lemma_signed_units(a.sign(), nearest(x * one, den));
            lemma_between_infinities(signed(a.sign(), nearest(x * one, den)));
        }
        if b.finite() {
            lemma_finite_is_smaller(b);
            lemma_signed_units(b.sign(), nearest(y * one, den));
            lemma_between_infinities(signed(b.sign(), nearest(y * one, den)));
        }
    }
}

proof fn lemma_scaled(x: int, y: int, k: int)
    requires
        x <= y,
        k >= 0,
    ensures
        x * k <= y * k,
{
    assert(x * k <= y * k) by (nonlinear_arith)
        requires
            x <= y,
            k >= 0,
    ;
}

/// A product grows with a factor where the other one is finite and above zero.
pub proof fn multiplication_keeps_the_order(a: Binary64, b: Binary64, c: Binary64)
    requires
        a.at_most(b),
        c.above(0),
        c.finite(),
    ensures
        a.times_spec(c).at_most(b.times_spec(c)),
{
    reveal(Binary64::times_spec);
    lemma_positive(c);
    lemma_between_infinities(a);
    lemma_between_infinities(b);
    let one = pow2(UNIT_EXPONENT as nat);
    lemma_pow2_pos(UNIT_EXPONENT as nat);
    let k = mag_units(c.mag());
    let x = mag_units(a.mag());
    let y = mag_units(b.mag());
    lemma_nearest_is_a_magnitude(x * k, one);
    lemma_nearest_is_a_magnitude(y * k, one);
    lemma_signed_units(a.sign(), INFINITE as nat);
    lemma_signed_units(b.sign(), INFINITE as nat);
    if a.finite() && b.finite() {
        lemma_scaled(a.units(), b.units(), k as int);
        assert((x * k) as int == x as int * k as int && -(x as int) * k == -(x * k))
            by (nonlinear_arith);
        assert(-(y as int) * k == -(y * k)) by (nonlinear_arith);
        lemma_signed_order(a.sign(), x * k, b.sign(), y * k, one);
    } else {
        if a.finite() {
            lemma_finite_is_smaller(a);
            lemma_signed_units(a.sign(), nearest(x * k, one));
            lemma_between_infinities(signed(a.sign(), nearest(x * k, one)));
        }
        if b.finite() {
            lemma_finite_is_smaller(b);
            lemma_signed_units(b.sign(), nearest(y * k, one));
            lemma_between_infinities(signed(b.sign(), nearest(y * k, one)));
        }
    }
}

// The score.

/// The value of a whole number of at most 53 binary digits.
pub proof fn lemma_whole(n: int)
    requires
        0 <= n < 2 * HIDDEN,
    ensures
        Binary64::whole(n).finite(),
        !Binary64::whole(n).sign(),
        Binary64::whole(n).units() == n * pow2(UNIT_EXPONENT as nat),
        pow2(UNIT_EXPONENT as nat) > 0,
        n > 0 ==> Binary64::whole(n).above(0),
        Binary64::whole(n).reaches(0),
{
    let one = pow2(UNIT_EXPONENT as nat);
    lemma_pow2_pos(UNIT_EXPONENT as nat);
    small_wholes_are_exact(n);
    small_wholes_are_exact(0);
    wholes_carry_their_sign(n);
    assert(0 * one == 0 && n * one >= 0 && (n > 0 ==> n * one > 0)) by (nonlinear_arith)
        requires
            one > 0,
            n >= 0,
    ;
}

/// Doubles of whole numbers are in the order of the whole numbers.
pub proof fn lemma_wholes_in_order(m: int, n: int)
    requires
        0 <= m <= n < 2 * HIDDEN,
    ensures
        Binary64::whole(m).at_most(Binary64::whole(n)),
        m < n ==> Binary64::whole(m).less(Binary64::whole(n)),
{
    lemma_whole(m);
    lemma_whole(n);
    let one = pow2(UNIT_EXPONENT as nat);
    assert(m * one <= n * one && (m < n ==> m * one < n * one)) by (nonlinear_arith)
        requires
            m <= n,
            one > 0,
    ;
}

/// A whole quotient of whole numbers is exact.
pub proof fn lemma_whole_quotient(q: int, d: int)
    requires
        0 <= q < 2 * HIDDEN,
        0 < d < 2 * HIDDEN,
        q * d < 2 * HIDDEN,
    ensures
        Binary64::whole(q * d).over_spec(Binary64::whole(d)).units() == Binary64::whole(q).units(),
        !Binary64::whole(q * d).over_spec(Binary64::whole(d)).nan(),
{
    reveal(Binary64::over_spec);
    assert(0 <= q * d) by (nonlinear_arith)
        requires
            0 <= q,
            0 < d,
    ;
    lemma_whole(q);
    lemma_whole(d);
    lemma_whole(q * d);
    lemma_positive(Binary64::whole(d));
    let one = pow2(UNIT_EXPONENT as nat);
    let m = Binary64::whole(q).mag();
    let den = mag_units(Binary64::whole(d).mag());
    assert(((q * d) * one) * one == (q * one) * (d * one)) by (nonlinear_arith);
    nearest_of_a_double(m, den);
}

/// A product of whole numbers that a double can hold is exact.
pub proof fn lemma_whole_product(a: int, b: int)
    requires
        0 <= a < 2 * HIDDEN,
        0 <= b < 2 * HIDDEN,
        a * b < 2 * HIDDEN,
    ensures
        Binary64::whole(a).times_spec(Binary64::whole(b)).units() == Binary64::whole(a * b).units(),
        !Binary64::whole(a).times_spec(Binary64::whole(b)).nan(),
{
    reveal(Binary64::times_spec);
    assert(0 <= a * b) by (nonlinear_arith)
        requires
            0 <= a,
            0 <= b,
    ;
    lemma_whole(a);
    lemma_whole(b);
    lemma_whole(a * b);
    let one = pow2(UNIT_EXPONENT as nat);
    let m = Binary64::whole(a * b).mag();
    assert((a * one) * (b * one) == ((a * b) * one) * one) by (nonlinear_arith);
    nearest_of_a_double(m, one);
}

/// The rate adds from 0 to 50 to the score, and all of it from 250 percent on.
pub proof fn the_rate_adds_up_to_fifty(apr: Binary64)
    requires
        !apr.nan(),
    ensures
        rate_part(apr).reaches(0),
        rate_part(apr).at_most(Binary64::whole(50)),
        apr.abs_spec().reaches(250) ==> rate_part(apr).reaches(50),
{
    let size = apr.abs_spec();
    let five = Binary64::whole(5);
    lemma_whole(0);
    lemma_whole(5);
    lemma_whole(50);
    lemma_wholes_in_order(0, 50);
    assert(0 * pow2(UNIT_EXPONENT as nat) == 0) by (nonlinear_arith);
    lemma_between_infinities(apr);
    lemma_mag_units_keep(0, apr.mag());
    assert(Binary64::whole(0).at_most(size));
    division_keeps_the_order(Binary64::whole(0), size, five);
    lemma_whole_quotient(0, 5);
    if size.reaches(250) {
        division_keeps_the_order(Binary64::whole(250), size, five);
        lemma_whole_quotient(50, 5);
    }
}

/// The liquidity adds at most 20 to the score, all of it from a hundred units (ten million
/// dollars) on, whose logarithm is two, and never takes anything away.
pub proof fn the_liquidity_adds_up_to_twenty(volume_log: Binary64)
    requires
        volume_log.reaches(0),
    ensures
        liquidity_part(volume_log).reaches(0),
        liquidity_part(volume_log).at_most(Binary64::whole(20)),
        volume_log.reaches(2) ==> liquidity_part(volume_log).reaches(20),
{
    let ten = Binary64::whole(10);
    lemma_whole(10);
    lemma_whole(20);
    lemma_wholes_in_order(0, 20);
    multiplication_keeps_the_order(Binary64::whole(0), volume_log, ten);
    lemma_whole_product(0, 10);
    lemma_whole(0);
    if volume_log.reaches(2) {
        multiplication_keeps_the_order(Binary64::whole(2), volume_log, ten);
        lemma_whole_product(2, 10);
    }
}

/// The stability adds from 0 to 30 to the score: all of it without a deviation, and nothing from
/// a deviation of 30 percent on.
pub proof fn the_stability_adds_up_to_thirty(std_pct: Binary64)
    requires
        std_pct.reaches(0),
    ensures
        stability_part(std_pct).reaches(0),
        stability_part(std_pct).at_most(Binary64::whole(30)),
        std_pct.at_most(Binary64::whole(0)) ==> stability_part(std_pct).reaches(30),
        std_pct.reaches(30) ==> stability_part(std_pct).at_most(Binary64::whole(0)),
{
    let zero = Binary64::whole(0);
    let thirty = Binary64::whole(30);
    lemma_whole(0);
    lemma_whole(30);
    lemma_wholes_in_order(0, 30);
    assert(0 * pow2(UNIT_EXPONENT as nat) == 0) by (nonlinear_arith);
    lemma_negation(std_pct);
    lemma_negation(zero);
    lemma_negation(thirty);
    lemma_difference_is_a_number(thirty, std_pct);
    lemma_difference_is_a_number(thirty, zero);
    lemma_difference_is_a_number(thirty, thirty);
    crate::arithmetic::representable_sums_are_exact(thirty, zero.negated_spec(), thirty);
    crate::arithmetic::difference_with_itself_is_zero(thirty);
    lemma_subtraction_turns_the_order(zero, std_pct, thirty);
    if std_pct.at_most(zero) {
        lemma_subtraction_turns_the_order(std_pct, zero, thirty);
    }
    if std_pct.reaches(30) {
        lemma_subtraction_turns_the_order(thirty, std_pct, thirty);
    }
}

/// A finite number less another number is a number.
pub proof fn lemma_difference_is_a_number(a: Binary64, b: Binary64)
    requires
        a.finite(),
        !b.nan(),
    ensures
        !a.minus_spec(b).nan(),
{
    lemma_negation(b);
    if b.finite() {
        lemma_sum_units(a, b.negated_spec());
    } else {
        reveal(Binary64::plus_spec);
    }
}

/// What is taken away from a finite number makes the difference the smaller, the larger it is.
pub proof fn lemma_subtraction_turns_the_order(a: Binary64, b: Binary64, from: Binary64)
    requires
        a.at_most(b),
        from.finite(),
    ensures
        from.minus_spec(b).at_most(from.minus_spec(a)),
{
    lemma_negation(a);
    lemma_negation(b);
    lemma_difference_is_a_number(from, a);
    lemma_difference_is_a_number(from, b);
    crate::arithmetic::addition_commutes(from, a.negated_spec());
    crate::arithmetic::addition_commutes(from, b.negated_spec());
    addition_keeps_the_order(b.negated_spec(), a.negated_spec(), from);
}

/// A part of the score is finite.
proof fn lemma_part_is_finite(x: Binary64, top: int)
    requires
        x.reaches(0),
        x.at_most(Binary64::whole(top)),
        0 <= top < 2 * HIDDEN,
    ensures
        x.finite(),
{
    lemma_whole(top);
    lemma_whole(0);
    lemma_finite_is_smaller(Binary64::whole(top));
    lemma_finite_is_smaller(Binary64::whole(0));
    lemma_between_infinities(x);
}

/// A number and a finite one have a sum.
pub proof fn lemma_sum_is_a_number(a: Binary64, b: Binary64)
    requires
        !a.nan(),
        b.finite(),
    ensures
        !a.plus_spec(b).nan(),
{
    if a.finite() {
        lemma_sum_units(a, b);
    } else {
        reveal(Binary64::plus_spec);
    }
}

/// The sum of the parts, cut at 0 and 100, grows with each of the first three.
proof fn lemma_score_grows(
    rate: Binary64,
    liquidity: Binary64,
    stability: Binary64,
    rate2: Binary64,
    liquidity2: Binary64,
    stability2: Binary64,
    trend: Binary64,
)
    requires
        rate.at_most(rate2),
        liquidity.at_most(liquidity2),
        stability.at_most(stability2),
        liquidity.finite(),
        stability.finite(),
        liquidity2.finite(),
        stability2.finite(),
        trend.finite(),
    ensures
        clamped(
            rate.plus_spec(liquidity).plus_spec(stability).plus_spec(trend),
            Binary64::whole(0),
            Binary64::whole(100),
        ).at_most(
            clamped(
                rate2.plus_spec(liquidity2).plus_spec(stability2).plus_spec(trend),
                Binary64::whole(0),
                Binary64::whole(100),
            ),
        ),
{
    let s1 = rate.plus_spec(liquidity);
    let s2 = rate2.plus_spec(liquidity2);
    lemma_sum_is_a_number(rate, liquidity);
    lemma_sum_is_a_number(rate2, liquidity);
    lemma_sum_is_a_number(rate2, liquidity2);
    lemma_sum_is_a_number(s1, stability);
    lemma_sum_is_a_number(s2, stability);
    lemma_sum_is_a_number(s2, stability2);
    lemma_sum_is_a_number(s1.plus_spec(stability), trend);
    lemma_sum_is_a_number(s2.plus_spec(stability2), trend);
    addition_keeps_the_order(rate, rate2, liquidity);
    crate::arithmetic::addition_commutes(rate2, liquidity);
    crate::arithmetic::addition_commutes(rate2, liquidity2);
    addition_keeps_the_order(liquidity, liquidity2, rate2);
    addition_keeps_the_order(s1, s2, stability);
    crate::arithmetic::addition_commutes(s2, stability);
    crate::arithmetic::addition_commutes(s2, stability2);
    addition_keeps_the_order(stability, stability2, s2);
    addition_keeps_the_order(s1.plus_spec(stability), s2.plus_spec(stability2), trend);
    lemma_wholes_in_order(0, 100);
}

/// A larger rate either way, a smaller deviation and more liquidity never lower the score.
pub proof fn better_readings_never_score_less(
    apr: Binary64,
    better_apr: Binary64,
    avg_apr: Binary64,
    std_pct: Binary64,
    better_std: Binary64,
    volume_log: Binary64,
    better_log: Binary64,
    dir: TrendDir,
)
    requires
        apr.abs_spec().at_most(better_apr.abs_spec()),
        better_std.reaches(0),
        better_std.at_most(std_pct),
        volume_log.reaches(0),
        volume_log.at_most(better_log),
    ensures
        score_spec(apr, avg_apr, std_pct, volume_log, dir).at_most(
            score_spec(better_apr, avg_apr, better_std, better_log, dir),
        ),
{
    lemma_whole(0);
    lemma_whole(5);
    lemma_whole(10);
    lemma_whole(20);
    lemma_whole(30);
    lemma_whole(50);
    division_keeps_the_order(apr.abs_spec(), better_apr.abs_spec(), Binary64::whole(5));
    multiplication_keeps_the_order(volume_log, better_log, Binary64::whole(10));
    lemma_subtraction_turns_the_order(better_std, std_pct, Binary64::whole(30));
    the_liquidity_adds_up_to_twenty(volume_log);
    the_liquidity_adds_up_to_twenty(better_log);
    the_stability_adds_up_to_thirty(std_pct);
    the_stability_adds_up_to_thirty(better_std);
    lemma_part_is_finite(liquidity_part(volume_log), 20);
    lemma_part_is_finite(liquidity_part(better_log), 20);
    lemma_part_is_finite(stability_part(std_pct), 30);
    lemma_part_is_finite(stability_part(better_std), 30);
    lemma_score_grows(
        rate_part(apr),
        liquidity_part(volume_log),
        stability_part(std_pct),
        rate_part(better_apr),
        liquidity_part(better_log),
        stability_part(better_std),
        trend_part(avg_apr, dir),
    );
}

// The costs.

/// A cost that is not below zero never makes a result larger.
pub proof fn a_cost_never_improves_a_result(result: Binary64, cost: Binary64)
    requires
        !result.nan(),
        cost.reaches(0),
        cost.finite(),
    ensures
        result.minus_spec(cost).at_most(result),
{
    lemma_whole(0);
    assert(0 * pow2(UNIT_EXPONENT as nat) == 0) by (nonlinear_arith);
    if result.finite() {
        let zero = Binary64::whole(0);
        lemma_negation(zero);
        crate::arithmetic::representable_sums_are_exact(result, zero.negated_spec(), result);
        lemma_subtraction_turns_the_order(zero, cost, result);
    } else {
        lemma_negation(cost);
        reveal(Binary64::plus_spec);
    }
}

/// After costs that are not below zero, a trade never came to more than before them.
pub proof fn net_results_never_exceed_gross_ones(
    gross: Binary64,
    entry_cost: Binary64,
    exit_cost: Binary64,
)
    requires
        !gross.nan(),
        entry_cost.reaches(0),
        entry_cost.finite(),
        exit_cost.reaches(0),
        exit_cost.finite(),
    ensures
        gross.minus_spec(entry_cost).minus_spec(exit_cost).at_most(gross),
{
    a_cost_never_improves_a_result(gross, entry_cost);
    a_cost_never_improves_a_result(gross.minus_spec(entry_cost), exit_cost);
}

/// The hours of a year over a hundred are a finite number above zero.
proof fn lemma_hours_of_a_year()
    ensures
        Binary64::ratio(876, 10).above(0),
        Binary64::ratio(876, 10).finite(),
{
    let ten = Binary64::whole(10);
    lemma_whole(0);
    lemma_whole(1);
    lemma_whole(10);
    lemma_whole(88);
    lemma_wholes_in_order(0, 1);
    lemma_wholes_in_order(10, 876);
    lemma_wholes_in_order(876, 880);
    division_keeps_the_order(ten, Binary64::whole(876), ten);
    division_keeps_the_order(Binary64::whole(876), Binary64::whole(880), ten);
    lemma_whole_quotient(1, 10);
    lemma_whole_quotient(88, 10);
    lemma_wholes_in_order(0, 88);
    lemma_part_is_finite(Binary64::ratio(876, 10), 88);
}

/// Where a limit order costs no more than a market order, it does not raise the rate at which
/// the funding pays for the costs.
pub proof fn limit_orders_never_raise_the_break_even(args: BacktestArgs)
    requires
        args.hold_hours > 0,
        taker_cost(args).finite(),
        args.maker_fee_bps.at_most(taker_cost(args)),
    ensures
        break_even_spec(BacktestArgs { use_maker: true, ..args }).at_most(
            break_even_spec(BacktestArgs { use_maker: false, ..args }),
        ),
{
    let limit = BacktestArgs { use_maker: true, ..args };
    let market = BacktestArgs { use_maker: false, ..args };
    let out = taker_cost(args);
    assert(taker_cost(limit) == out && taker_cost(market) == out);
    lemma_sum_is_a_number(args.maker_fee_bps, out);
    lemma_sum_is_a_number(out, out);
    addition_keeps_the_order(args.maker_fee_bps, out, out);
    lemma_hours_of_a_year();
    multiplication_keeps_the_order(
        args.maker_fee_bps.plus_spec(out),
        out.plus_spec(out),
        Binary64::ratio(876, 10),
    );
    let hold = Binary64::whole(args.hold_hours as int);
    let one = pow2(UNIT_EXPONENT as nat);
    small_wholes_are_exact(args.hold_hours as int);
    small_wholes_are_exact(0);
    lemma_pow2_pos(UNIT_EXPONENT as nat);
    assert(0 * one == 0 && args.hold_hours * one > 0) by (nonlinear_arith)
        requires
            one > 0,
            args.hold_hours > 0,
    ;
    division_keeps_the_order(
        args.maker_fee_bps.plus_spec(out).times_spec(Binary64::ratio(876, 10)),
        out.plus_spec(out).times_spec(Binary64::ratio(876, 10)),
        hold,
    );
}

// The candidates.

/// One half is exact.
proof fn lemma_half()
    ensures
        Binary64::ratio(5, 10).finite(),
        !Binary64::ratio(5, 10).sign(),
        mag_units(Binary64::ratio(5, 10).mag()) == pow2(1073),
        pow2(UNIT_EXPONENT as nat) == 2 * pow2(1073),
        pow2(1073) > 0,
{
    reveal(Binary64::over_spec);
    let one = pow2(UNIT_EXPONENT as nat);
    let half = pow2(1073);
    let m = (1022 * HIDDEN) as nat;
    lemma2_to64();
    lemma2_to64_rest();
    lemma_pow2_unfold(UNIT_EXPONENT as nat);
    lemma_pow2_pos(1073);
    lemma_packed_units(1021, HIDDEN as nat);
    lemma_pow2_adds(52, 1021);
    lemma_whole(5);
    lemma_whole(10);
    lemma_positive(Binary64::whole(10));
    assert((5 * one) * one == half * (10 * one)) by (nonlinear_arith)
        requires
            one == 2 * half,
    ;
    nearest_of_a_double(m, (10 * one) as nat);
}

/// Half of a number that is not tiny is exact, and is half of it when it is divided by it.
proof fn lemma_half_of(size: Binary64)
    requires
        size.finite(),
        !size.sign(),
        size.mag() >= 2 * HIDDEN,
    ensures
        size.times_spec(Binary64::ratio(5, 10)).finite(),
        size.times_spec(Binary64::ratio(5, 10)).over_spec(size) == Binary64::ratio(5, 10),
{
    reveal(Binary64::times_spec);
    reveal(Binary64::over_spec);
    lemma_half();
    let half = Binary64::ratio(5, 10);
    let one = pow2(UNIT_EXPONENT as nat);
    let h = HIDDEN as int;
    let m = size.mag();
    let below = (m - h) as nat;
    let e = (m as int / h - 1) as nat;
    let q = (h + m as int % h) as nat;
    vstd::arithmetic::div_mod::lemma_fundamental_div_mod(m as int, h);
    assert(m as int / h >= 2) by (nonlinear_arith)
        requires
            m as int == h * (m as int / h) + m as int % h,
            0 <= m as int % h < h,
            m >= 2 * h,
            h > 0,
    ;
    assert(m == e * h + q && below == (e - 1) * h + q) by (nonlinear_arith)
        requires
            m as int == h * (m as int / h) + m as int % h,
            e == m as int / h - 1,
            q == h + m as int % h,
            below == m - h,
    ;
    lemma_packed_units(e, q);
    lemma_packed_units((e - 1) as nat, q);
    lemma_pow2_unfold(e);
    lemma_pow2_pos((e - 1) as nat);
    let p = pow2((e - 1) as nat);
    assert(q * (2 * p) == 2 * (q * p)) by (nonlinear_arith);
    let x = mag_units(m);
    let y = mag_units(below);
    assert(x == 2 * y);
    assert(y > 0) by (nonlinear_arith)
        requires
            y == q * p,
            q > 0,
            p > 0,
    ;
    assert(x * pow2(1073) == y * one) by (nonlinear_arith)
        requires
            x == 2 * y,
            one == 2 * pow2(1073),
    ;
    nearest_of_a_double(below, one);
    assert(size.times_spec(half).mag() == below);
    assert(y * one == pow2(1073) * x) by (nonlinear_arith)
        requires
            x == 2 * y,
            one == 2 * pow2(1073),
    ;
    nearest_of_a_double(half.mag(), x);
    assert(half.bits == half.mag());
}

/// A number of at least thirty is not tiny.
proof fn lemma_thirty_is_not_tiny(size: Binary64)
    requires
        size.reaches(30),
    ensures
        size.mag() >= 2 * HIDDEN,
        !size.sign(),
        size.above(0),
{
    lemma_whole(30);
    lemma_whole(0);
    lemma_wholes_in_order(0, 30);
    lemma_positive(size);
    lemma2_to64();
    let one = pow2(UNIT_EXPONENT as nat);
    if size.mag() < 2 * HIDDEN {
        lemma_mag_units_keep(size.mag(), (2 * HIDDEN) as nat);
        lemma_packed_units(0, (2 * HIDDEN) as nat);
        assert((2 * HIDDEN) as nat * 1 == 2 * HIDDEN);
        lemma2_to64_rest();
        lemma_pow2_strictly_increases(53, UNIT_EXPONENT as nat);
        assert(30 * one >= one) by (nonlinear_arith)
            requires
                one > 0,
        ;
    }
}

/// The score of a candidate is at least half of its mean rate.
pub proof fn candidates_score_at_least_half_their_mean(
    rows: Seq<Reading>,
    places: Seq<usize>,
    c: CandidateRow,
)
    requires
        candidate_at(rows, places) == Some(c),
        c.avg_apr.finite(),
        !c.std_apr.nan(),
    ensures
        c.avg_apr.abs_spec().times_spec(Binary64::ratio(5, 10)).at_most(c.score),
{
    let size = c.avg_apr.abs_spec();
    let half = Binary64::ratio(5, 10);
    let one = Binary64::whole(1);
    lemma_whole(30);
    lemma_whole(1);
    assert(size.reaches(30));
    lemma_thirty_is_not_tiny(size);
    lemma_half();
    lemma_half_of(size);
    let part = size.times_spec(half);
    assert(c.std_apr.at_most(part));
    division_keeps_the_order(c.std_apr, part, size);
    let ratio = c.std_apr.over_spec(size);
    lemma_subtraction_turns_the_order(ratio, half, one);
    lemma_negation(half);
    assert(1 * pow2(UNIT_EXPONENT as nat) == pow2(UNIT_EXPONENT as nat)) by (nonlinear_arith);
    crate::arithmetic::representable_sums_are_exact(one, half.negated_spec(), half);
    let rest = one.minus_spec(ratio);
    assert(half.at_most(rest));
    multiplication_keeps_the_order(half, rest, size);
    crate::arithmetic::multiplication_commutes(half, size);
    crate::arithmetic::multiplication_commutes(rest, size);
}

} // verus!
