//! Sums, spreads, trends and the score of a funding signal.

use crate::binary64::Binary64;
use vstd::prelude::*;

verus! {

/// The bit pattern of the negative zero, from which a sum starts: it is the one number that
/// changes nothing when it is added.
pub const NEGATIVE_ZERO: u64 = 0x8000_0000_0000_0000;

/// Which way the last three readings go.
#[derive(Clone, Copy, Debug, PartialEq, Eq, Structural)]
pub enum TrendDir {
    Up,
    Down,
    Flat,
}

/// The mean of a series and how far its members lie from it.
#[derive(Clone, Copy, Debug)]
pub struct Spread {
    pub avg: Binary64,
    pub std: Binary64,
    /// The deviation in percent of the absolute mean; zero where the mean is next to nothing.
    pub std_pct: Binary64,
}

/// The sum, from the first to the last.
pub open spec fn sum_of(xs: Seq<Binary64>) -> Binary64
    decreases xs.len(),
{
    if xs.len() == 0 {
        Binary64 { bits: NEGATIVE_ZERO }
    } else {
        sum_of(xs.drop_last()).plus_spec(xs.last())
    }
}

/// The squares of the members.
pub open spec fn squares(xs: Seq<Binary64>) -> Seq<Binary64> {
    xs.map_values(|x: Binary64| x.times_spec(x))
}

/// The mean.
pub open spec fn mean_of(xs: Seq<Binary64>) -> Binary64 {
    sum_of(xs).over_spec(Binary64::whole(xs.len() as int))
}

/// `100 * std / |avg|`, or zero where `|avg|` is not above a billionth.
pub open spec fn percent_of_mean(avg: Binary64, std: Binary64) -> Binary64 {
    if Binary64::ratio(1, 1_000_000_000).less(avg.abs_spec()) {
        Binary64::whole(100).times_spec(std).over_spec(avg.abs_spec())
    } else {
        Binary64::whole(0)
    }
}

/// The deviation of a population whose mean is `avg` and whose mean square is `mean_square`:
/// a difference below zero, which only rounding can bring about, counts as zero.
pub open spec fn deviation(mean_square: Binary64, avg: Binary64) -> Binary64 {
    mean_square.minus_spec(avg.times_spec(avg)).max_spec(Binary64::whole(0)).root_spec()
}

pub open spec fn spread_spec(xs: Seq<Binary64>) -> Spread {
    let avg = mean_of(xs);
    let std = deviation(mean_of(squares(xs)), avg);
    Spread { avg, std, std_pct: percent_of_mean(avg, std) }
}

pub open spec fn trend_spec(old_apr: Binary64, mid_apr: Binary64, new_apr: Binary64) -> TrendDir {
    if mid_apr.less(new_apr) && old_apr.less(mid_apr) {
        TrendDir::Up
    } else if new_apr.less(mid_apr) && mid_apr.less(old_apr) {
        TrendDir::Down
    } else {
        TrendDir::Flat
    }
}

/// The trend of a series whose first member is the newest.
pub open spec fn trend_newest_first(xs: Seq<Binary64>) -> TrendDir {
    if xs.len() >= 3 {
        trend_spec(xs[2], xs[1], xs[0])
    } else {
        TrendDir::Flat
    }
}

/// The trend of a series whose last member is the newest.
pub open spec fn trend_newest_last(xs: Seq<Binary64>) -> TrendDir {
    let n = xs.len() as int;
    if n >= 3 {
        trend_spec(xs[n - 3], xs[n - 2], xs[n - 1])
    } else {
        TrendDir::Flat
    }
}

/// The trend goes the way of the mean: up where it is above zero, down where it is below.
pub open spec fn trend_matches(avg: Binary64, dir: TrendDir) -> bool {
    (dir == TrendDir::Up && avg.above(0)) || (dir == TrendDir::Down && avg.below(0))
}

/// The liquidity that the score counts: the daily volume in units of 100000 dollars, one at
/// least.
pub open spec fn volume_ratio_spec(volume: Binary64) -> Binary64 {
    volume.over_spec(Binary64::whole(100_000)).max_spec(Binary64::whole(1))
}

pub open spec fn clamped(x: Binary64, low: Binary64, high: Binary64) -> Binary64 {
    if x.less(low) {
        low
    } else if high.less(x) {
        high
    } else {
        x
    }
}

/// What the rate adds to the score: a fifth of its size, up to 50.
pub open spec fn rate_part(apr_now: Binary64) -> Binary64 {
    apr_now.abs_spec().over_spec(Binary64::whole(5)).min_spec(Binary64::whole(50))
}

/// What the liquidity adds to the score: ten for each power of ten, up to 20.
pub open spec fn liquidity_part(volume_log: Binary64) -> Binary64 {
    volume_log.times_spec(Binary64::whole(10)).min_spec(Binary64::whole(20))
}

/// What the stability adds to the score: 30 less the deviation, or nothing.
pub open spec fn stability_part(std_pct: Binary64) -> Binary64 {
    Binary64::whole(30).minus_spec(std_pct).max_spec(Binary64::whole(0))
}

/// What the trend adds to the score: 10 where it goes the way of the mean.
pub open spec fn trend_part(avg_apr: Binary64, dir: TrendDir) -> Binary64 {
    if trend_matches(avg_apr, dir) {
        Binary64::whole(10)
    } else {
        Binary64::whole(0)
    }
}

/// The score, from 0 to 100, of a reading: up to 50 for the rate (reached at 250 percent), up to
/// 20 for the liquidity (reached at ten million dollars), up to 30 for the stability, and 10 for a
/// trend that goes the way of the mean. `volume_log` is the decimal logarithm of the liquidity.
pub open spec fn score_spec(
    apr_now: Binary64,
    avg_apr: Binary64,
    std_pct: Binary64,
    volume_log: Binary64,
    dir: TrendDir,
) -> Binary64 {
    clamped(
        rate_part(apr_now).plus_spec(liquidity_part(volume_log)).plus_spec(
            stability_part(std_pct),
        ).plus_spec(trend_part(avg_apr, dir)),
        Binary64::whole(0),
        Binary64::whole(100),
    )
}

/// The sum.
pub fn sum(xs: &Vec<Binary64>) -> (r: Binary64)
    ensures
        r == sum_of(xs@),
{
    let mut total = Binary64 { bits: NEGATIVE_ZERO };
    let n: usize = xs.len();
    let mut i: usize = 0;
    while i < n
        invariant
            n == xs@.len(),
            i <= n,
            total == sum_of(xs@.take(i as int)),
        decreases n - i,
    {
        assert(xs@.take(i + 1).drop_last() =~= xs@.take(i as int));
        total = total.plus(xs[i]);
        i = i + 1;
    }
    assert(xs@.take(n as int) =~= xs@);
    total
}

/// The mean.
pub fn mean(xs: &Vec<Binary64>) -> (r: Binary64)
    ensures
        r == mean_of(xs@),
{
    sum(xs).over(Binary64::from_count(xs.len()))
}

/// The deviation in percent of the absolute mean.
pub fn relative_deviation(avg: Binary64, std: Binary64) -> (r: Binary64)
    ensures
        r == percent_of_mean(avg, std),
{
    if Binary64::from_ratio(1, 1_000_000_000).is_less(avg.abs()) {
        Binary64::from_whole(100).times(std).over(avg.abs())
    } else {
        Binary64::from_whole(0)
    }
}

/// The deviation of a population out of its mean square and its mean.
pub fn population_deviation(mean_square: Binary64, avg: Binary64) -> (r: Binary64)
    ensures
        r == deviation(mean_square, avg),
{
    mean_square.minus(avg.times(avg)).max(Binary64::from_whole(0)).root()
}

/// The mean, the deviation and their ratio.
pub fn spread(xs: &Vec<Binary64>) -> (r: Spread)
    ensures
        r == spread_spec(xs@),
{
    let mut sq: Vec<Binary64> = Vec::new();
    let n: usize = xs.len();
    let mut i: usize = 0;
    while i < n
        invariant
            n == xs@.len(),
            i <= n,
            sq@ == squares(xs@.take(i as int)),
        decreases n - i,
    {
        sq.push(xs[i].times(xs[i]));
        i = i + 1;
        assert(sq@ =~= squares(xs@.take(i as int)));
    }
    assert(xs@.take(n as int) =~= xs@);
    let avg = mean(xs);
    let std = population_deviation(mean(&sq), avg);
    Spread { avg, std, std_pct: relative_deviation(avg, std) }
}

/// Which way three readings go.
pub fn trend(old_apr: Binary64, mid_apr: Binary64, new_apr: Binary64) -> (r: TrendDir)
    ensures
        r == trend_spec(old_apr, mid_apr, new_apr),
{
    if mid_apr.is_less(new_apr) && old_apr.is_less(mid_apr) {
        TrendDir::Up
    } else if new_apr.is_less(mid_apr) && mid_apr.is_less(old_apr) {
        TrendDir::Down
    } else {
        TrendDir::Flat
    }
}

/// Whether the trend goes the way of the mean.
pub fn matches_trend(avg_apr: Binary64, dir: TrendDir) -> (r: bool)
    ensures
        r == trend_matches(avg_apr, dir),
{
    match dir {
        TrendDir::Up => avg_apr.is_above(0),
        TrendDir::Down => avg_apr.is_below(0),
        TrendDir::Flat => false,
    }
}

/// The liquidity that the score counts.
pub fn volume_ratio(volume: Binary64) -> (r: Binary64)
    ensures
        r == volume_ratio_spec(volume),
{
    volume.over(Binary64::from_whole(100_000)).max(Binary64::from_whole(1))
}

fn clamp(x: Binary64, low: Binary64, high: Binary64) -> (r: Binary64)
    ensures
        r == clamped(x, low, high),
{
    if x.is_less(low) {
        low
    } else if high.is_less(x) {
        high
    } else {
        x
    }
}

/// The score of a reading.
pub fn compute_score(
    apr_now: Binary64,
    avg_apr: Binary64,
    std_pct: Binary64,
    volume_log: Binary64,
    dir: TrendDir,
) -> (r: Binary64)
    ensures
        r == score_spec(apr_now, avg_apr, std_pct, volume_log, dir),
{
    let base = apr_now.abs().over(Binary64::from_whole(5)).min(Binary64::from_whole(50));
    let volume_bonus = volume_log.times(Binary64::from_whole(10)).min(Binary64::from_whole(20));
    let stability_bonus = Binary64::from_whole(30).minus(std_pct).max(Binary64::from_whole(0));
    let direction_bonus = if matches_trend(avg_apr, dir) {
        Binary64::from_whole(10)
    } else {
        Binary64::from_whole(0)
    };
    clamp(
        base.plus(volume_bonus).plus(stability_bonus).plus(direction_bonus),
        Binary64::from_whole(0),
        Binary64::from_whole(100),
    )
}

/// A score is between 0 and 100, unless a reading was not a number.
pub proof fn score_stays_in_range(
    apr_now: Binary64,
    avg_apr: Binary64,
    std_pct: Binary64,
    volume_log: Binary64,
    dir: TrendDir,
)
    ensures
        ({
            let s = score_spec(apr_now, avg_apr, std_pct, volume_log, dir);
            s.nan() || (s.reaches(0) && s.at_most(Binary64::whole(100)))
        }),
{
    crate::arithmetic::small_wholes_are_exact(0);
    crate::arithmetic::small_wholes_are_exact(100);
    let one = vstd::arithmetic::power2::pow2(crate::arithmetic::UNIT_EXPONENT as nat);
    vstd::arithmetic::power2::lemma_pow2_pos(crate::arithmetic::UNIT_EXPONENT as nat);
    assert(0 * one == 0 && 100 * one > 0) by (nonlinear_arith)
        requires
            one > 0,
    ;
}

/// A flat trend never earns the bonus, a trend and its opposite never both earn it, and where the
/// mean is zero none does.
pub proof fn opposite_trends_do_not_both_match(avg: Binary64)
    ensures
        !trend_matches(avg, TrendDir::Flat),
        !(trend_matches(avg, TrendDir::Up) && trend_matches(avg, TrendDir::Down)),
        avg.mag() == 0 ==> !trend_matches(avg, TrendDir::Up) && !trend_matches(
            avg,
            TrendDir::Down,
        ),
{
    crate::arithmetic::small_wholes_are_exact(0);
    assert(0 * vstd::arithmetic::power2::pow2(crate::arithmetic::UNIT_EXPONENT as nat) == 0)
        by (nonlinear_arith);
}

/// Three readings in reverse order go the other way.
pub proof fn trend_reverses(a: Binary64, b: Binary64, c: Binary64)
    ensures
        trend_spec(a, b, c) == TrendDir::Up <==> trend_spec(c, b, a) == TrendDir::Down,
{
}

} // verus!
