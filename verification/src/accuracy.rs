//! How far a computed number may lie from the exact one.
//!
//! Every operation rounds to the nearest double, which is off by less than one part in 2^52 as
//! long as the result is neither tiny nor infinite. A chain of operations is off by one such part
//! for each of them.

use crate::arithmetic::{
    lemma_bracket_exists, lemma_nearest_is_a_magnitude, nearest_of_a_double, UNIT_EXPONENT,
};
use crate::binary64::{
    lemma_mag_units_increase, lemma_packed_units, mag_units, Binary64, HIDDEN, INFINITE,
};
use crate::monotony::{
    lemma_mag_units_keep, lemma_signed_units, lemma_whole, rounding_keeps_the_order,
};
use crate::result_laws::lemma_step_to_the_next;
use crate::rounding::{brackets, nearest};
use vstd::arithmetic::power2::*;
use vstd::prelude::*;

verus! {

/// The number `x` is `n / d` up to `k` roundings, each of which may be off by one part in 2^52.
pub open spec fn near(x: int, n: int, d: int, k: int) -> bool {
    &&& n * (HIDDEN - k) <= x * d * HIDDEN
    &&& x * d * (HIDDEN - k) <= n * HIDDEN
}

/// One, in units.
pub open spec fn one() -> int {
    pow2(UNIT_EXPONENT as nat) as int
}

/// A positive number between 2^-e and 2^e.
pub open spec fn moderate(x: Binary64, e: nat) -> bool {
    &&& x.finite()
    &&& !x.sign()
    &&& e <= 1000
    &&& pow2((UNIT_EXPONENT - e) as nat) <= x.units() <= pow2((UNIT_EXPONENT + e) as nat)
}

// Products of inequalities.

proof fn lemma_product(a: int, b: int, c: int, d: int)
    requires
        0 <= a <= b,
        0 <= c <= d,
    ensures
        a * c <= b * d,
{
    assert(a * c <= b * d) by (nonlinear_arith)
        requires
            0 <= a <= b,
            0 <= c <= d,
    ;
}

/// What holds of multiples holds of what was multiplied.
proof fn lemma_cancel(a: int, b: int, k: int)
    requires
        a * k <= b * k,
        k > 0,
    ensures
        a <= b,
{
    assert(a <= b) by (nonlinear_arith)
        requires
            a * k <= b * k,
            k > 0,
    ;
}

/// Two reductions, one after the other, take away at most their sum.
proof fn lemma_two_reductions(i: int, j: int)
    requires
        0 <= i,
        0 <= j,
    ensures
        (HIDDEN - i) * (HIDDEN - j) >= HIDDEN * (HIDDEN - i - j),
{
    let h = HIDDEN as int;
    assert((h - i) * (h - j) == h * (h - i - j) + i * j) by (nonlinear_arith);
    assert(i * j >= 0) by (nonlinear_arith)
        requires
            0 <= i,
            0 <= j,
    ;
}

/// An exact number.
pub proof fn lemma_near_exact(x: int)
    ensures
        near(x, x, 1, 0),
{
}

/// More roundings allow for more.
pub proof fn lemma_near_more(x: int, n: int, d: int, j: int, k: int)
    requires
        near(x, n, d, j),
        0 <= j <= k,
        n >= 0,
        x >= 0,
        d >= 0,
    ensures
        near(x, n, d, k),
{
    let h = HIDDEN as int;
    assert(x * d >= 0) by (nonlinear_arith)
        requires
            x >= 0,
            d >= 0,
    ;
    assert(n * (h - k) <= n * (h - j)) by (nonlinear_arith)
        requires
            n >= 0,
            j <= k,
    ;
    let y = x * d;
    assert(y * (h - k) <= y * (h - j)) by (nonlinear_arith)
        requires
            y >= 0,
            j <= k,
    ;
}

/// A number near to one that is near to a third is near to that.
pub proof fn lemma_near_chain(r: int, p: int, s: int, i: int, n: int, d: int, j: int)
    requires
        near(r, p, s, i),
        near(p, n, d, j),
        0 <= i,
        0 <= j,
        i + j <= HIDDEN,
        n >= 0,
        p >= 0,
        r >= 0,
        s > 0,
        d > 0,
    ensures
        near(r, n, s * d, i + j),
{
    let h = HIDDEN as int;
    let hi = h - i;
    let hj = h - j;
    let hij = h - (i + j);
    lemma_two_reductions(i, j);
    let rs = r * s;
    assert(rs >= 0) by (nonlinear_arith)
        requires
            rs == r * s,
            r >= 0,
            s > 0,
    ;
    let pd = p * d;
    assert(pd >= 0) by (nonlinear_arith)
        requires
            pd == p * d,
            p >= 0,
            d > 0,
    ;
    let rsd = rs * d;
    assert(rsd >= 0) by (nonlinear_arith)
        requires
            rsd == rs * d,
            rs >= 0,
            d > 0,
    ;
    assert(r * (s * d) == rsd) by (nonlinear_arith)
        requires
            rs == r * s,
            rsd == rs * d,
    ;
    // n * hj <= pd * h and p * hi <= rs * h.
    assert((n * hij) * h <= (rsd * h) * h) by {
        assert((n * hij) * h <= (n * hj) * hi) by (nonlinear_arith)
            requires
                hi * hj >= h * hij,
                n >= 0,
        ;
        assert((n * hj) * hi <= (pd * h) * hi) by (nonlinear_arith)
            requires
                n * hj <= pd * h,
                hi >= 0,
        ;
        assert((pd * h) * hi == (p * hi) * (d * h)) by (nonlinear_arith)
            requires
                pd == p * d,
        ;
        assert((p * hi) * (d * h) <= (rs * h) * (d * h)) by (nonlinear_arith)
            requires
                p * hi <= rs * h,
                d > 0,
                h > 0,
        ;
        assert((rs * h) * (d * h) == (rsd * h) * h) by (nonlinear_arith)
            requires
                rsd == rs * d,
        ;
    }
    lemma_cancel(n * hij, rsd * h, h);
    // rs * hi <= p * h and pd * hj <= n * h.
    assert((rsd * hij) * h <= (n * h) * h) by {
        assert((rsd * hij) * h <= (rsd * hi) * hj) by (nonlinear_arith)
            requires
                hi * hj >= h * hij,
                rsd >= 0,
        ;
        assert((rsd * hi) * hj == (rs * hi) * (d * hj)) by (nonlinear_arith)
            requires
                rsd == rs * d,
        ;
        assert((rs * hi) * (d * hj) <= (p * h) * (d * hj)) by (nonlinear_arith)
            requires
                rs * hi <= p * h,
                d > 0,
                hj >= 0,
        ;
        assert((p * h) * (d * hj) == (pd * hj) * h) by (nonlinear_arith)
            requires
                pd == p * d,
        ;
        assert((pd * hj) * h <= (n * h) * h) by (nonlinear_arith)
            requires
                pd * hj <= n * h,
                h > 0,
        ;
    }
    lemma_cancel(rsd * hij, n * h, h);
}

/// A product of two numbers is near where the factors are.
pub proof fn lemma_near_product(x: int, n: int, d: int, j: int, y: int, m: int, e: int, k: int)
    requires
        near(x, n, d, j),
        near(y, m, e, k),
        0 <= j,
        0 <= k,
        j + k <= HIDDEN,
        n >= 0,
        m >= 0,
        x >= 0,
        y >= 0,
        d > 0,
        e > 0,
    ensures
        near(x * y, n * m, d * e, j + k),
{
    // x * y is near to n * y / d, and that to n * m / (d * e).
    lemma_near_scaled(x, n, d, j, y);
    lemma_near_scaled(y, m, e, k, n);
    assert(y * n == n * y && m * n == n * m) by (nonlinear_arith);
    assert(n * y >= 0 && n * m >= 0 && x * y >= 0) by (nonlinear_arith)
        requires
            n >= 0,
            m >= 0,
            x >= 0,
            y >= 0,
    ;
    lemma_near_chain(x * y, n * y, d, j, n * m, e, k);
}

/// A multiple of a near number is near to the multiple.
pub proof fn lemma_near_scaled(x: int, n: int, d: int, k: int, c: int)
    requires
        near(x, n, d, k),
        c >= 0,
    ensures
        near(x * c, n * c, d, k),
{
    let h = HIDDEN as int;
    let hk = h - k;
    let xd = x * d;
    assert((x * c) * d == xd * c) by (nonlinear_arith)
        requires
            xd == x * d,
    ;
    assert((n * c) * hk == (n * hk) * c && (xd * c) * h == (xd * h) * c) by (nonlinear_arith);
    assert((xd * c) * hk == (xd * hk) * c && (n * c) * h == (n * h) * c) by (nonlinear_arith);
    assert((n * hk) * c <= (xd * h) * c) by (nonlinear_arith)
        requires
            n * hk <= xd * h,
            c >= 0,
    ;
    assert((xd * hk) * c <= (n * h) * c) by (nonlinear_arith)
        requires
            xd * hk <= n * h,
            c >= 0,
    ;
}

/// A fraction may be expanded and reduced.
pub proof fn lemma_near_expanded(x: int, n: int, d: int, k: int, c: int)
    requires
        c > 0,
    ensures
        near(x, n * c, d * c, k) <==> near(x, n, d, k),
{
    let h = HIDDEN as int;
    let hk = h - k;
    let xd = x * d;
    assert(x * (d * c) == xd * c) by (nonlinear_arith)
        requires
            xd == x * d,
    ;
    assert((n * c) * hk == (n * hk) * c && (xd * c) * h == (xd * h) * c) by (nonlinear_arith);
    assert((xd * c) * hk == (xd * hk) * c && (n * c) * h == (n * h) * c) by (nonlinear_arith);
    if near(x, n * c, d * c, k) {
        lemma_cancel(n * hk, xd * h, c);
        lemma_cancel(xd * hk, n * h, c);
    }
    if near(x, n, d, k) {
        assert((n * hk) * c <= (xd * h) * c) by (nonlinear_arith)
            requires
                n * hk <= xd * h,
                c > 0,
        ;
        assert((xd * hk) * c <= (n * h) * c) by (nonlinear_arith)
            requires
                xd * hk <= n * h,
                c > 0,
        ;
    }
}

/// A sum is near where its two parts are.
pub proof fn lemma_near_sum(x: int, n: int, y: int, m: int, d: int, k: int)
    requires
        near(x, n, d, k),
        near(y, m, d, k),
    ensures
        near(x + y, n + m, d, k),
{
    let h = HIDDEN as int;
    let hk = h - k;
    let xd = x * d;
    let yd = y * d;
    assert((x + y) * d == xd + yd) by (nonlinear_arith)
        requires
            xd == x * d,
            yd == y * d,
    ;
    assert((n + m) * hk == n * hk + m * hk && (xd + yd) * hk == xd * hk + yd * hk)
        by (nonlinear_arith);
}

// Rounding.

/// The nearest double to a quotient that is not tiny is off by less than one part in 2^52.
pub proof fn lemma_rounded(num: nat, den: nat)
    requires
        den > 0,
        HIDDEN * den <= num,
        nearest(num, den) < INFINITE,
    ensures
        near(mag_units(nearest(num, den)) as int, num as int, den as int, 1),
{
    let inf = INFINITE as nat;
    let h = HIDDEN as int;
    lemma_bracket_exists(num, den, inf);
    let k = choose|k: nat| brackets(k, num, den);
    crate::rounding::lemma_nearest_at(k, num, den);
    lemma_step_to_the_next(k);
    let d = den as int;
    let low = mag_units(k) as int;
    let high = mag_units(k + 1) as int;
    if k < HIDDEN {
        assert(mag_units(k + 1) <= HIDDEN);
        assert(high * d <= h * d) by (nonlinear_arith)
            requires
                high <= h,
                d > 0,
        ;
        assert(false);
    }
    let ld = low * d;
    let hd = high * d;
    assert((hd - ld) * h <= ld) by (nonlinear_arith)
        requires
            (high - low) * h <= low,
            ld == low * d,
            hd == high * d,
            d > 0,
    ;
    let n = num as int;
    assert(n * (h - 1) == n * h - n) by (nonlinear_arith);
    assert(ld * (h - 1) == ld * h - ld && hd * (h - 1) == hd * h - hd) by (nonlinear_arith);
    assert((hd - ld) * h == hd * h - ld * h) by (nonlinear_arith);
    assert(n * h <= hd * h && ld * h <= n * h) by (nonlinear_arith)
        requires
            ld <= n <= hd,
            h > 0,
    ;
    if nearest(num, den) == k {
        assert(near(low, n, d, 1));
    } else {
        assert(near(high, n, d, 1));
    }
}

/// A power of two is a double.
proof fn lemma_power(j: nat)
    requires
        52 <= j <= 2090,
    ensures
        mag_units(((j - 51) * HIDDEN) as nat) == pow2(j),
        (j - 51) * HIDDEN < INFINITE,
{
    lemma2_to64();
    lemma2_to64_rest();
    let e = (j - 52) as nat;
    lemma_packed_units(e, HIDDEN as nat);
    lemma_pow2_adds(52, e);
    assert(e * HIDDEN + HIDDEN == (j - 51) * HIDDEN) by (nonlinear_arith)
        requires
            e == j - 52,
    ;
}

/// A quotient between two powers of two is rounded to a double between them.
proof fn lemma_rounded_within(num: nat, den: nat, low: nat, high: nat)
    requires
        den > 0,
        52 <= low,
        high <= 2090,
        low <= high,
        pow2(low) * den <= num,
        num <= pow2(high) * den,
    ensures
        nearest(num, den) < INFINITE,
        pow2(low) <= mag_units(nearest(num, den)) <= pow2(high),
        near(mag_units(nearest(num, den)) as int, num as int, den as int, 1),
{
    lemma_power(low);
    lemma_power(high);
    let a = ((low - 51) * HIDDEN) as nat;
    let b = ((high - 51) * HIDDEN) as nat;
    lemma_pow2_pos(low);
    assert(a < INFINITE) by (nonlinear_arith)
        requires
            a == (low - 51) * HIDDEN,
            low <= 2090,
            HIDDEN == 0x10_0000_0000_0000,
            INFINITE == 0x7ff0_0000_0000_0000,
    ;
    nearest_of_a_double(a, den);
    nearest_of_a_double(b, den);
    rounding_keeps_the_order(pow2(low) * den, num, den);
    rounding_keeps_the_order(num, pow2(high) * den, den);
    lemma_mag_units_keep(a, nearest(num, den));
    lemma_mag_units_keep(nearest(num, den), b);
    lemma2_to64();
    lemma2_to64_rest();
    if low > 52 {
        lemma_pow2_strictly_increases(52, low);
    }
    assert(HIDDEN * den <= pow2(low) * den) by (nonlinear_arith)
        requires
            HIDDEN <= pow2(low),
            den > 0,
    ;
    lemma_rounded(num, den);
}

/// The parts of a positive number.
pub proof fn lemma_moderate(x: Binary64, e: nat)
    requires
        moderate(x, e),
    ensures
        x.units() == mag_units(x.mag()),
        x.units() > 0,
        x.mag() > 0,
        one() > 0,
{
    lemma_pow2_pos((UNIT_EXPONENT - e) as nat);
    lemma_pow2_pos(UNIT_EXPONENT as nat);
    assert(mag_units(0) == 0);
}

/// A product.
pub proof fn lemma_times(a: Binary64, b: Binary64, e: nat, f: nat)
    requires
        moderate(a, e),
        moderate(b, f),
        e + f <= 1000,
    ensures
        moderate(a.times_spec(b), e + f),
        near(a.times_spec(b).units(), a.units() * b.units(), one(), 1),
{
    reveal(Binary64::times_spec);
    lemma_moderate(a, e);
    lemma_moderate(b, f);
    let u = UNIT_EXPONENT as nat;
    let x = mag_units(a.mag());
    let y = mag_units(b.mag());
    lemma_pow2_adds((u - e) as nat, (u - f) as nat);
    lemma_pow2_adds((u + e) as nat, (u + f) as nat);
    lemma_pow2_adds((u - (e + f)) as nat, u);
    lemma_pow2_adds((u + (e + f)) as nat, u);
    lemma_product(pow2((u - e) as nat) as int, x as int, pow2((u - f) as nat) as int, y as int);
    lemma_product(x as int, pow2((u + e) as nat) as int, y as int, pow2((u + f) as nat) as int);
    if e + f > 0 {
        lemma_pow2_strictly_increases((u - (e + f)) as nat, (u + (e + f)) as nat);
    }
    lemma_rounded_within(x * y, pow2(u), (u - (e + f)) as nat, (u + (e + f)) as nat);
    lemma_signed_units(false, nearest(x * y, pow2(u)));
}

/// A quotient.
pub proof fn lemma_over(a: Binary64, b: Binary64, e: nat, f: nat)
    requires
        moderate(a, e),
        moderate(b, f),
        e + f <= 1000,
    ensures
        moderate(a.over_spec(b), e + f),
        near(a.over_spec(b).units(), a.units() * one(), b.units(), 1),
{
    reveal(Binary64::over_spec);
    lemma_moderate(a, e);
    lemma_moderate(b, f);
    let u = UNIT_EXPONENT as nat;
    let x = mag_units(a.mag());
    let y = mag_units(b.mag());
    lemma_pow2_adds((u - (e + f)) as nat, (u + f) as nat);
    lemma_pow2_adds((u - e) as nat, u);
    lemma_pow2_adds((u + (e + f)) as nat, (u - f) as nat);
    lemma_pow2_adds((u + e) as nat, u);
    lemma_product(
        pow2((u - (e + f)) as nat) as int,
        pow2((u - (e + f)) as nat) as int,
        y as int,
        pow2((u + f) as nat) as int,
    );
    lemma_product(pow2((u - e) as nat) as int, x as int, pow2(u) as int, pow2(u) as int);
    lemma_product(x as int, pow2((u + e) as nat) as int, pow2(u) as int, pow2(u) as int);
    lemma_product(
        pow2((u + (e + f)) as nat) as int,
        pow2((u + (e + f)) as nat) as int,
        pow2((u - f) as nat) as int,
        y as int,
    );
    if e + f > 0 {
        lemma_pow2_strictly_increases((u - (e + f)) as nat, (u + (e + f)) as nat);
    }
    lemma_rounded_within(x * pow2(u), y, (u - (e + f)) as nat, (u + (e + f)) as nat);
    lemma_signed_units(false, nearest(x * pow2(u), y));
}

/// A sum.
pub proof fn lemma_plus(a: Binary64, b: Binary64, e: nat)
    requires
        moderate(a, e),
        moderate(b, e),
        e < 1000,
    ensures
        moderate(a.plus_spec(b), e + 1),
        near(a.plus_spec(b).units(), a.units() + b.units(), 1, 1),
{
    reveal(Binary64::plus_spec);
    lemma_moderate(a, e);
    lemma_moderate(b, e);
    let u = UNIT_EXPONENT as nat;
    let sum = (a.units() + b.units()) as nat;
    lemma_pow2_unfold((u + e + 1) as nat);
    lemma_pow2_unfold((u - e) as nat);
    lemma_pow2_strictly_increases((u - (e + 1)) as nat, (u + (e + 1)) as nat);
    assert(pow2((u - (e + 1)) as nat) * 1 == pow2((u - (e + 1)) as nat));
    assert(pow2((u + (e + 1)) as nat) * 1 == pow2((u + (e + 1)) as nat));
    lemma_pow2_pos((u - (e + 1)) as nat);
    lemma_rounded_within(sum, 1, (u - (e + 1)) as nat, (u + (e + 1)) as nat);
    lemma_signed_units(false, nearest(sum, 1));
}

/// A wider range.
pub proof fn lemma_wider(x: Binary64, e: nat, f: nat)
    requires
        moderate(x, e),
        e <= f <= 1000,
    ensures
        moderate(x, f),
{
    let u = UNIT_EXPONENT as nat;
    if e < f {
        lemma_pow2_strictly_increases((u - f) as nat, (u - e) as nat);
        lemma_pow2_strictly_increases((u + e) as nat, (u + f) as nat);
    }
}

/// A whole number is exact and moderate.
pub proof fn lemma_moderate_whole(n: int)
    requires
        1 <= n < 2 * HIDDEN,
    ensures
        moderate(Binary64::whole(n), 53),
        Binary64::whole(n).units() == n * one(),
        one() > 0,
{
    lemma_whole(n);
    let u = UNIT_EXPONENT as nat;
    lemma2_to64();
    lemma2_to64_rest();
    lemma_pow2_adds(u, 53);
    lemma_pow2_strictly_increases((u - 53) as nat, u);
    assert(n * one() <= pow2(u) * pow2(53)) by (nonlinear_arith)
        requires
            0 <= n <= pow2(53),
            one() == pow2(u),
    ;
    assert(n * one() >= one()) by (nonlinear_arith)
        requires
            n >= 1,
            one() > 0,
    ;
}

// Chains of operations.

/// A number that is near to `n / d` is multiplied by another one.
pub proof fn lemma_then_times(x: Binary64, n: int, d: int, k: int, e: nat, c: Binary64, f: nat)
    requires
        moderate(x, e),
        moderate(c, f),
        e + f <= 1000,
        near(x.units(), n, d, k),
        0 <= k < 100,
        n >= 0,
        d > 0,
    ensures
        moderate(x.times_spec(c), e + f),
        near(x.times_spec(c).units(), n * c.units(), one() * d, k + 1),
        n * c.units() >= 0,
        one() * d > 0,
{
    lemma_times(x, c, e, f);
    lemma_moderate(x, e);
    lemma_moderate(c, f);
    lemma_moderate(x.times_spec(c), e + f);
    lemma_near_scaled(x.units(), n, d, k, c.units());
    assert(n * c.units() >= 0 && x.units() * c.units() >= 0 && one() * d > 0) by (nonlinear_arith)
        requires
            n >= 0,
            c.units() > 0,
            x.units() > 0,
            one() > 0,
            d > 0,
    ;
    lemma_near_chain(
        x.times_spec(c).units(),
        x.units() * c.units(),
        one(),
        1,
        n * c.units(),
        d,
        k,
    );
}

/// A number that is near to `n / d` is divided by another one.
pub proof fn lemma_then_over(x: Binary64, n: int, d: int, k: int, e: nat, c: Binary64, f: nat)
    requires
        moderate(x, e),
        moderate(c, f),
        e + f <= 1000,
        near(x.units(), n, d, k),
        0 <= k < 100,
        n >= 0,
        d > 0,
    ensures
        moderate(x.over_spec(c), e + f),
        near(x.over_spec(c).units(), n * one(), c.units() * d, k + 1),
        n * one() >= 0,
        c.units() * d > 0,
{
    lemma_over(x, c, e, f);
    lemma_moderate(x, e);
    lemma_moderate(c, f);
    lemma_moderate(x.over_spec(c), e + f);
    lemma_near_scaled(x.units(), n, d, k, one());
    assert(n * one() >= 0 && x.units() * one() >= 0 && c.units() * d > 0) by (nonlinear_arith)
        requires
            n >= 0,
            c.units() > 0,
            x.units() > 0,
            one() > 0,
            d > 0,
    ;
    lemma_near_chain(
        x.over_spec(c).units(),
        x.units() * one(),
        c.units(),
        1,
        n * one(),
        d,
        k,
    );
}

/// A number that is near to `n / d` is multiplied by a whole number.
pub proof fn lemma_then_times_whole(x: Binary64, n: int, d: int, k: int, e: nat, w: int)
    requires
        moderate(x, e),
        e + 53 <= 1000,
        near(x.units(), n, d, k),
        0 <= k < 100,
        n >= 0,
        d > 0,
        1 <= w < 2 * HIDDEN,
    ensures
        moderate(x.times_spec(Binary64::whole(w)), e + 53),
        near(x.times_spec(Binary64::whole(w)).units(), n * w, d, k + 1),
        n * w >= 0,
{
    lemma_moderate_whole(w);
    lemma_then_times(x, n, d, k, e, Binary64::whole(w), 53);
    assert(n * (w * one()) == (n * w) * one() && one() * d == d * one() && n * w >= 0)
        by (nonlinear_arith)
        requires
            n >= 0,
            w >= 1,
    ;
    lemma_near_expanded(x.times_spec(Binary64::whole(w)).units(), n * w, d, k + 1, one());
}

/// A number that is near to `n / d` is divided by a whole number.
pub proof fn lemma_then_over_whole(x: Binary64, n: int, d: int, k: int, e: nat, w: int)
    requires
        moderate(x, e),
        e + 53 <= 1000,
        near(x.units(), n, d, k),
        0 <= k < 100,
        n >= 0,
        d > 0,
        1 <= w < 2 * HIDDEN,
    ensures
        moderate(x.over_spec(Binary64::whole(w)), e + 53),
        near(x.over_spec(Binary64::whole(w)).units(), n, d * w, k + 1),
        d * w > 0,
{
    lemma_moderate_whole(w);
    lemma_then_over(x, n, d, k, e, Binary64::whole(w), 53);
    assert((w * one()) * d == (d * w) * one() && d * w > 0) by (nonlinear_arith)
        requires
            d > 0,
            w >= 1,
    ;
    lemma_near_expanded(x.over_spec(Binary64::whole(w)).units(), n, d * w, k + 1, one());
}

/// Two numbers that are near to fractions of one denominator are added.
pub proof fn lemma_then_plus(
    x: Binary64,
    n: int,
    y: Binary64,
    m: int,
    d: int,
    k: int,
    e: nat,
)
    requires
        moderate(x, e),
        moderate(y, e),
        e < 1000,
        near(x.units(), n, d, k),
        near(y.units(), m, d, k),
        0 <= k < 100,
        n >= 0,
        m >= 0,
        d > 0,
    ensures
        moderate(x.plus_spec(y), e + 1),
        near(x.plus_spec(y).units(), n + m, d, k + 1),
{
    lemma_plus(x, y, e);
    lemma_moderate(x, e);
    lemma_moderate(y, e);
    lemma_moderate(x.plus_spec(y), e + 1);
    lemma_near_sum(x.units(), n, y.units(), m, d, k);
    lemma_near_chain(x.plus_spec(y).units(), x.units() + y.units(), 1, 1, n + m, d, k);
    assert(1 * d == d);
}

/// A decimal fraction.
pub proof fn lemma_fraction(n: int, d: int)
    requires
        1 <= n < 2 * HIDDEN,
        1 <= d < 2 * HIDDEN,
    ensures
        moderate(Binary64::ratio(n, d), 106),
        near(Binary64::ratio(n, d).units(), n * one(), d, 1),
{
    lemma_moderate_whole(n);
    let x = Binary64::whole(n);
    lemma_near_exact(x.units());
    lemma_moderate(x, 53);
    lemma_then_over_whole(x, n * one(), 1, 0, 53, d);
    assert(1 * d == d);
}

/// A number that is near to `n / d` is multiplied by a decimal fraction.
pub proof fn lemma_then_times_fraction(
    x: Binary64,
    n: int,
    d: int,
    k: int,
    e: nat,
    p: int,
    q: int,
)
    requires
        moderate(x, e),
        e + 106 <= 1000,
        near(x.units(), n, d, k),
        0 <= k < 100,
        n >= 0,
        d > 0,
        1 <= p < 2 * HIDDEN,
        1 <= q < 2 * HIDDEN,
    ensures
        moderate(x.times_spec(Binary64::ratio(p, q)), e + 106),
        near(x.times_spec(Binary64::ratio(p, q)).units(), n * p, d * q, k + 2),
        n * p >= 0,
        d * q > 0,
{
    let c = Binary64::ratio(p, q);
    let r = x.times_spec(c);
    lemma_fraction(p, q);
    lemma_moderate(x, e);
    lemma_moderate(c, 106);
    lemma_times(x, c, e, 106);
    lemma_moderate(r, e + 106);
    assert(p * one() >= 0 && n * p >= 0 && d * q > 0) by (nonlinear_arith)
        requires
            p >= 1,
            q >= 1,
            n >= 0,
            d > 0,
            one() > 0,
    ;
    lemma_near_product(x.units(), n, d, k, c.units(), p * one(), q, 1);
    let m = n * (p * one());
    assert(m == (n * p) * one() && m >= 0 && x.units() * c.units() >= 0) by (nonlinear_arith)
        requires
            m == n * (p * one()),
            n * p >= 0,
            one() > 0,
            x.units() > 0,
            c.units() > 0,
    ;
    lemma_near_chain(r.units(), x.units() * c.units(), one(), 1, m, d * q, k + 1);
    assert(one() * (d * q) == (d * q) * one()) by (nonlinear_arith);
    lemma_near_expanded(r.units(), n * p, d * q, k + 2, one());
}

// Signs.

/// A product and a quotient with a positive number keep the sign and go by the size.
pub proof fn lemma_signs_apart(a: Binary64, b: Binary64)
    requires
        !a.nan(),
        b.finite(),
        !b.sign(),
        b.mag() > 0,
    ensures
        a.times_spec(b).abs_spec() == a.abs_spec().times_spec(b),
        a.over_spec(b).abs_spec() == a.abs_spec().over_spec(b),
        a.times_spec(b).sign() == a.sign(),
        a.over_spec(b).sign() == a.sign(),
        !a.times_spec(b).nan(),
        !a.over_spec(b).nan(),
{
    reveal(Binary64::times_spec);
    reveal(Binary64::over_spec);
    let x = mag_units(a.mag());
    let y = mag_units(b.mag());
    lemma_pow2_pos(UNIT_EXPONENT as nat);
    lemma_mag_units_increase(0, b.mag());
    lemma_nearest_is_a_magnitude(x * y, pow2(UNIT_EXPONENT as nat));
    lemma_nearest_is_a_magnitude(x * pow2(UNIT_EXPONENT as nat), y);
}

} // verus!
