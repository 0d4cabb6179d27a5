//! What a deviation is: the root of the mean square distance from the mean.

use crate::accuracy::{lemma_fraction, near, one};
use crate::arithmetic::{representable_sums_are_exact, UNIT_EXPONENT};
use crate::binary64::{lemma_key_order, lemma_mag_units_increase, mag_units, Binary64, HIDDEN};
use crate::figure_laws::{lemma_a_billionth_is_small, lemma_finite_like};
use crate::metrics::{daily_figures, squared_distances};
use crate::monotony::{
    lemma_negation, lemma_signed_units, lemma_whole, lemma_whole_product, lemma_whole_quotient,
    lemma_wholes_in_order,
};
use crate::rounding::{brackets_root, lemma_nearest_root_at};
use crate::stats::{mean_of, spread_spec, squares, sum_of};
use vstd::arithmetic::power2::*;
use vstd::prelude::*;

verus! {

/// A number other than zero is known by its value.
proof fn lemma_same(x: Binary64, y: Binary64)
    requires
        !x.nan(),
        y.finite(),
        x.units() == y.units(),
        y.units() != 0,
    ensures
        x == y,
{
    lemma_finite_like(x, y);
    lemma_key_order(x, y);
}

/// The root of a square is exact.
pub proof fn the_root_of_a_square_is_exact(d: int)
    requires
        0 < d,
        d * d < 2 * HIDDEN,
    ensures
        Binary64::whole(d * d).root_spec() == Binary64::whole(d),
{
    reveal(Binary64::root_spec);
    assert(0 < d < 2 * HIDDEN && d <= d * d) by (nonlinear_arith)
        requires
            0 < d,
            d * d < 2 * HIDDEN,
    ;
    lemma_whole(d);
    lemma_whole(d * d);
    let p = one();
    let x = Binary64::whole(d * d);
    let k = Binary64::whole(d).mag();
    let m = mag_units(k);
    assert(d * p > 0 && (d * d) * p > 0 && ((d * d) * p) * p == (d * p) * (d * p))
        by (nonlinear_arith)
        requires
            d > 0,
            p > 0,
    ;
    assert(mag_units(0) == 0);
    assert(m == d * p);
    let n = (mag_units(x.mag()) * pow2(UNIT_EXPONENT as nat)) as nat;
    assert(n == m * m);
    lemma_mag_units_increase(k, k + 1);
    let above = mag_units(k + 1);
    assert(m * m < above * above && 4 * (m * m) < (m + above) * (m + above)) by (nonlinear_arith)
        requires
            0 <= m < above,
    ;
    assert(brackets_root(k, n));
    lemma_nearest_root_at(k, n);
    lemma_signed_units(false, k);
    lemma_same(x.root_spec(), Binary64::whole(d));
}

/// The mean of two whole numbers with a whole mean.
proof fn lemma_mean_of_two(xs: Seq<Binary64>, u: int, v: int, mean: int)
    requires
        xs.len() == 2,
        xs[0].finite(),
        xs[0].units() == u * one(),
        xs[1].finite(),
        xs[1].units() == v * one(),
        0 <= u < 2 * HIDDEN,
        u + v == 2 * mean,
        0 < mean < HIDDEN,
    ensures
        mean_of(xs) == Binary64::whole(mean),
{
    let p = one();
    let first = xs.drop_last();
    let none = first.drop_last();
    assert(none.len() == 0);
    assert(first.len() == 1 && first.last() == xs[0] && xs.last() == xs[1]);
    assert(mag_units(0) == 0);
    assert(sum_of(none).finite() && sum_of(none).units() == 0);
    lemma_whole(u);
    lemma_whole(mean);
    lemma_whole(2 * mean);
    assert(u * p + v * p == (2 * mean) * p && (2 * mean) * p > 0 && mean * p > 0)
        by (nonlinear_arith)
        requires
            u + v == 2 * mean,
            mean > 0,
            p > 0,
    ;
    representable_sums_are_exact(sum_of(none), xs[0], Binary64::whole(u));
    representable_sums_are_exact(sum_of(first), xs[1], Binary64::whole(2 * mean));
    lemma_same(sum_of(xs), Binary64::whole(2 * mean));
    assert(mean * 2 == 2 * mean);
    lemma_whole_quotient(mean, 2);
    lemma_same(mean_of(xs), Binary64::whole(mean));
}

/// The product of a whole number with itself.
proof fn lemma_square(n: int)
    requires
        0 <= n,
        n * n < 2 * HIDDEN,
    ensures
        0 <= n < 2 * HIDDEN,
        0 <= n * n,
        Binary64::whole(n).times_spec(Binary64::whole(n)).finite(),
        Binary64::whole(n).times_spec(Binary64::whole(n)).units() == (n * n) * one(),
{
    assert(n < 2 * HIDDEN && 0 <= n * n) by (nonlinear_arith)
        requires
            0 <= n,
            n * n < 2 * HIDDEN,
    ;
    lemma_whole_product(n, n);
    lemma_whole(n * n);
    lemma_finite_like(Binary64::whole(n).times_spec(Binary64::whole(n)), Binary64::whole(n * n));
}

/// What two numbers at the distance `d` from their mean `a` come to.
proof fn lemma_two_numbers(a: int, d: int)
    requires
        0 < d <= a < 0x200_0000,
    ensures
        d * d < HIDDEN,
        a * a < HIDDEN,
        (a + d) * (a + d) < 2 * HIDDEN,
        (a - d) * (a - d) < 2 * HIDDEN,
        (a + d) * (a + d) + (a - d) * (a - d) == 2 * (a * a + d * d),
        0 < a * a + d * d < HIDDEN,
        0 < d * d,
{
    assert(d * d <= a * a && a * a < 0x4_0000_0000_0000 && (a + d) * (a + d) <= 4 * (a * a) && (a
        - d) * (a - d) <= a * a && (a + d) * (a + d) + (a - d) * (a - d) == 2 * (a * a + d * d)
        && 0 < d * d) by (nonlinear_arith)
        requires
            0 < d <= a < 0x200_0000,
    ;
}

/// Two days with whole results deviate by half of the distance between them, and the ratio is that
/// of their mean to it.
pub proof fn two_days_deviate_by_half_their_distance(a: int, d: int)
    requires
        0 < d <= a < 0x200_0000,
    ensures
        ({
            let f = daily_figures(seq![Binary64::whole(a + d), Binary64::whole(a - d)]);
            &&& f.mean == Binary64::whole(a)
            &&& f.std == Binary64::whole(d)
            &&& near(f.sharpe.units(), a * one(), d, 1)
        }),
{
    let x = Binary64::whole(a + d);
    let y = Binary64::whole(a - d);
    let xs = seq![x, y];
    let m = Binary64::whole(a);
    let p = one();
    lemma_two_numbers(a, d);
    lemma_whole(a + d);
    lemma_whole(a - d);
    lemma_whole(a);
    lemma_whole(d);
    lemma_mean_of_two(xs, a + d, a - d, a);
    lemma_negation(m);
    assert((a + d) * p - a * p == d * p && (a - d) * p - a * p == -(d * p) && d * p > 0)
        by (nonlinear_arith)
        requires
            d > 0,
            p > 0,
    ;
    let far = Binary64::whole(d);
    lemma_negation(far);
    representable_sums_are_exact(x, m.negated_spec(), far);
    lemma_same(x.minus_spec(m), far);
    representable_sums_are_exact(y, m.negated_spec(), far.negated_spec());
    lemma_same(y.minus_spec(m), far.negated_spec());
    assert(far.negated_spec().times_spec(far.negated_spec()) == far.times_spec(far)) by {
        reveal(Binary64::times_spec);
    }
    lemma_square(d);
    let ds = squared_distances(xs, m);
    assert(ds[0] == far.times_spec(far) && ds[1] == far.times_spec(far));
    assert(d * d + d * d == 2 * (d * d));
    lemma_mean_of_two(ds, d * d, d * d, d * d);
    the_root_of_a_square_is_exact(d);
    lemma_a_billionth_is_small();
    lemma_wholes_in_order(1, d);
    lemma_fraction(a, d);
}

/// Two whole readings deviate by half of the distance between them.
pub proof fn two_readings_deviate_by_half_their_distance(a: int, d: int)
    requires
        0 < d <= a < 0x200_0000,
    ensures
        ({
            let s = spread_spec(seq![Binary64::whole(a + d), Binary64::whole(a - d)]);
            &&& s.avg == Binary64::whole(a)
            &&& s.std == Binary64::whole(d)
        }),
{
    let x = Binary64::whole(a + d);
    let y = Binary64::whole(a - d);
    let xs = seq![x, y];
    let m = Binary64::whole(a);
    let p = one();
    lemma_two_numbers(a, d);
    lemma_whole(a + d);
    lemma_whole(a - d);
    lemma_whole(a);
    lemma_whole(0);
    lemma_whole(d * d);
    lemma_mean_of_two(xs, a + d, a - d, a);
    lemma_square(a + d);
    lemma_square(a - d);
    lemma_square(a);
    let qs = squares(xs);
    assert(qs[0] == x.times_spec(x) && qs[1] == y.times_spec(y));
    let q = a * a + d * d;
    lemma_mean_of_two(qs, (a + d) * (a + d), (a - d) * (a - d), q);
    lemma_whole(q);
    let mm = m.times_spec(m);
    lemma_negation(mm);
    assert(q * p - (a * a) * p == (d * d) * p && (d * d) * p > 0 && 0 * p == 0) by (nonlinear_arith)
        requires
            q == a * a + d * d,
            d * d > 0,
            p > 0,
    ;
    representable_sums_are_exact(Binary64::whole(q), mm.negated_spec(), Binary64::whole(d * d));
    lemma_same(Binary64::whole(q).minus_spec(mm), Binary64::whole(d * d));
    the_root_of_a_square_is_exact(d);
}

} // verus!
