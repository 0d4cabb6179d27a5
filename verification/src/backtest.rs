//! The backtest: a rule-driven trader replayed hour by hour over past funding rates.
//!
//! Only funding is accounted for: every hour a short position receives the hour's rate on its
//! size and a long position pays it. Entering and leaving cost a number of basis points.

use crate::binary64::Binary64;
use crate::stats::{
    compute_score, score_spec, spread, spread_spec, trend, trend_newest_last, TrendDir,
};
use crate::tier::{classify, classify_spec, rank_spec, tier_rank, Requirements, Tier};
use vstd::prelude::*;

verus! {

/// An hour in milliseconds.
pub const HOUR_MS: i64 = 3_600_000;

/// The window from which a reading is judged: one day in milliseconds.
pub const LOOKBACK_MS: i64 = 86_400_000;

/// The least tier that a position is opened for.
#[derive(Clone, Copy, Debug, PartialEq, Eq, Structural)]
pub enum CliTier {
    Strong,
    Medium,
    Early,
}

/// When a position is left before it has been held for its full time.
#[derive(Clone, Copy, Debug, PartialEq, Eq, Structural)]
pub enum CliExitStrategy {
    /// As soon as the conditions of entry no longer hold.
    Std,
    /// Never.
    MaxHoldOnly,
    /// When the rate falls below a threshold of its own.
    Hysteresis,
}

/// The parameters of a backtest. Rates are in percent per year, costs in basis points.
#[derive(Clone, Copy, Debug)]
pub struct BacktestArgs {
    pub days: u32,
    pub capital: Binary64,
    pub max_positions: usize,
    pub min_tier: CliTier,
    pub hold_hours: u32,
    pub spread_bps: Binary64,
    pub taker_fee_bps: Binary64,
    pub maker_fee_bps: Binary64,
    pub use_maker: bool,
    pub slippage_bps: Binary64,
    /// Where it is set, entries ask for this rate and not for a tier.
    pub min_funding_apr: Option<Binary64>,
    pub exit_strategy: CliExitStrategy,
    /// Entries under `Hysteresis` ask for this rate.
    pub hysteresis_entry_apr: Binary64,
    /// Positions under `Hysteresis` are left below this rate.
    pub hysteresis_exit_apr: Binary64,
}

/// The side of a position.
#[derive(Clone, Copy, Debug, PartialEq, Eq, Structural)]
pub enum Side {
    Long,
    Short,
}

/// Why a position was left.
#[derive(Clone, Copy, Debug, PartialEq, Eq, Structural)]
pub enum ExitReason {
    MaxHold,
    SignalLost,
    EndOfPeriod,
}

/// The funding rate that was paid at a time.
#[derive(Clone, Copy, Debug)]
pub struct FundingPoint {
    pub time_ms: i64,
    /// The fraction of the position that one hour costs.
    pub rate: Binary64,
}

/// The funding history of one coin.
pub struct CoinSeries {
    pub coin: String,
    /// In the order of time.
    pub points: Vec<FundingPoint>,
    /// The decimal logarithm of the coin's liquidity, as the score counts it.
    pub volume_log: Binary64,
}

/// What is known of a coin at a time.
#[derive(Clone, Copy, Debug)]
pub struct AssetSnap {
    pub apr_now: Binary64,
    pub std_pct: Binary64,
    /// None where the score is too low or the deviation too high for any tier.
    pub natural_tier: Option<Tier>,
    pub count: usize,
}

/// An open position.
#[derive(Clone, Copy, Debug)]
pub struct Position {
    /// The coin, by its place among the series.
    pub asset: usize,
    pub side: Side,
    pub size_usd: Binary64,
    pub entry_time_sec: i64,
    pub entry_tier: Tier,
    /// The funding received so far.
    pub accumulated_pnl: Binary64,
    pub entry_cost: Binary64,
    pub funding_apr_at_entry: Binary64,
}

/// A position that was left.
#[derive(Clone, Copy, Debug)]
pub struct Trade {
    /// The coin, by its place among the series.
    pub asset: usize,
    pub entry_tier: Tier,
    pub side: Side,
    pub size_usd: Binary64,
    pub entry_time_sec: i64,
    pub exit_time_sec: i64,
    /// The funding received, before costs.
    pub gross_funding_pnl: Binary64,
    pub entry_cost: Binary64,
    pub exit_cost: Binary64,
    /// The funding received less both costs.
    pub net_pnl: Binary64,
    pub funding_apr_at_entry: Binary64,
    pub funding_apr_at_exit: Binary64,
    pub hold_hours: u32,
    pub exit_reason: ExitReason,
}

// Labels.

pub open spec fn exit_strategy_text(s: CliExitStrategy) -> Seq<char> {
    match s {
        CliExitStrategy::Std => "std"@,
        CliExitStrategy::MaxHoldOnly => "max-hold-only"@,
        CliExitStrategy::Hysteresis => "hysteresis"@,
    }
}

/// The name of a strategy.
pub fn exit_strategy_label(s: CliExitStrategy) -> (r: &'static str)
    ensures
        r@ == exit_strategy_text(s),
{
    match s {
        CliExitStrategy::Std => "std",
        CliExitStrategy::MaxHoldOnly => "max-hold-only",
        CliExitStrategy::Hysteresis => "hysteresis",
    }
}

pub open spec fn side_text(s: Side) -> Seq<char> {
    match s {
        Side::Long => "LONG"@,
        Side::Short => "SHORT"@,
    }
}

/// The name of a side.
pub fn side_str(s: Side) -> (r: &'static str)
    ensures
        r@ == side_text(s),
{
    match s {
        Side::Long => "LONG",
        Side::Short => "SHORT",
    }
}

pub open spec fn exit_reason_text(e: ExitReason) -> Seq<char> {
    match e {
        ExitReason::MaxHold => "max_hold"@,
        ExitReason::SignalLost => "signal_lost"@,
        ExitReason::EndOfPeriod => "end_of_period"@,
    }
}

/// The name of a reason.
pub fn exit_reason_str(e: ExitReason) -> (r: &'static str)
    ensures
        r@ == exit_reason_text(e),
{
    match e {
        ExitReason::MaxHold => "max_hold",
        ExitReason::SignalLost => "signal_lost",
        ExitReason::EndOfPeriod => "end_of_period",
    }
}

pub open spec fn min_tier_text(t: CliTier) -> Seq<char> {
    match t {
        CliTier::Strong => "STRONG"@,
        CliTier::Medium => "MEDIUM"@,
        CliTier::Early => "EARLY"@,
    }
}

/// The name of a least tier.
pub fn min_tier_label(t: CliTier) -> (r: &'static str)
    ensures
        r@ == min_tier_text(t),
{
    match t {
        CliTier::Strong => "STRONG",
        CliTier::Medium => "MEDIUM",
        CliTier::Early => "EARLY",
    }
}

// Tiers.

pub open spec fn cli_rank_spec(t: CliTier) -> nat {
    match t {
        CliTier::Strong => 3,
        CliTier::Medium => 2,
        CliTier::Early => 1,
    }
}

/// The rank of a least tier, on the scale of `tier_rank`.
pub fn cli_tier_rank(t: CliTier) -> (r: u8)
    ensures
        r == cli_rank_spec(t),
{
    match t {
        CliTier::Strong => 3,
        CliTier::Medium => 2,
        CliTier::Early => 1,
    }
}

/// Whether a tier is at least the least one asked for.
pub fn min_tier_satisfied(min: CliTier, actual: Tier) -> (r: bool)
    ensures
        r == (rank_spec(actual) >= cli_rank_spec(min)),
{
    tier_rank(actual) >= cli_tier_rank(min)
}

/// How many of the 24 hourly readings each tier asks for.
pub open spec fn hourly_requirements() -> Requirements {
    Requirements { strong: 18, medium: 8, early: 3 }
}

/// The tier of a reading over a day of hourly rates.
pub fn classify_tier(score: Binary64, std_pct: Binary64, count: usize) -> (r: Option<Tier>)
    ensures
        r == classify_spec(score, std_pct, count as nat, hourly_requirements()),
{
    classify(score, std_pct, count, Requirements { strong: 18, medium: 8, early: 3 })
}

pub open spec fn size_fraction(t: Tier) -> Binary64 {
    match t {
        Tier::Strong => Binary64::ratio(20, 100),
        Tier::Medium => Binary64::ratio(10, 100),
        Tier::Early => Binary64::ratio(5, 100),
        Tier::Weak => Binary64::ratio(2, 100),
    }
}

/// The part of the capital that a position of a tier takes.
pub fn tier_size_pct(t: Tier) -> (r: Binary64)
    ensures
        r == size_fraction(t),
{
    match t {
        Tier::Strong => Binary64::from_ratio(20, 100),
        Tier::Medium => Binary64::from_ratio(10, 100),
        Tier::Early => Binary64::from_ratio(5, 100),
        Tier::Weak => Binary64::from_ratio(2, 100),
    }
}

// Costs.

/// A market order: half the spread, the fee and the slippage.
pub open spec fn taker_cost(args: BacktestArgs) -> Binary64 {
    args.spread_bps.over_spec(Binary64::whole(2)).plus_spec(args.taker_fee_bps).plus_spec(
        args.slippage_bps,
    )
}

/// A limit order, filled in the middle of the spread, costs its fee only.
pub open spec fn entry_cost_spec(args: BacktestArgs) -> Binary64 {
    if args.use_maker {
        args.maker_fee_bps
    } else {
        taker_cost(args)
    }
}

/// The rate at which the funding of a full holding time pays for both orders: the costs in basis
/// points, times 87.6 (the hours of a year over a hundred), over the hours held.
pub open spec fn break_even_spec(args: BacktestArgs) -> Binary64 {
    entry_cost_spec(args).plus_spec(taker_cost(args)).times_spec(
        Binary64::ratio(876, 10),
    ).over_spec(Binary64::whole(args.hold_hours as int))
}

/// What entering costs, in basis points.
pub fn entry_cost_bps(args: &BacktestArgs) -> (r: Binary64)
    ensures
        r == entry_cost_spec(*args),
{
    if args.use_maker {
        args.maker_fee_bps
    } else {
        args.spread_bps.over(Binary64::from_whole(2)).plus(args.taker_fee_bps).plus(
            args.slippage_bps,
        )
    }
}

/// What leaving costs, in basis points: always by a market order.
pub fn exit_cost_bps(args: &BacktestArgs) -> (r: Binary64)
    ensures
        r == taker_cost(*args),
{
    args.spread_bps.over(Binary64::from_whole(2)).plus(args.taker_fee_bps).plus(args.slippage_bps)
}

/// The rate at which the funding of a full holding time pays for both orders.
pub fn break_even_apr_pct(args: &BacktestArgs) -> (r: Binary64)
    ensures
        r == break_even_spec(*args),
{
    entry_cost_bps(args).plus(exit_cost_bps(args)).times(Binary64::from_ratio(876, 10)).over(
        Binary64::from_whole(args.hold_hours as i64),
    )
}

/// `size * bps / 10000`.
pub open spec fn cost_in_dollars(size: Binary64, bps: Binary64) -> Binary64 {
    size.times_spec(bps).over_spec(Binary64::whole(10_000))
}

pub(crate) fn dollars(size: Binary64, bps: Binary64) -> (r: Binary64)
    ensures
        r == cost_in_dollars(size, bps),
{
    size.times(bps).over(Binary64::from_whole(10_000))
}

/// A market order in costs what a market order out costs.
pub proof fn market_entry_costs_as_much_as_exit(args: BacktestArgs)
    requires
        !args.use_maker,
    ensures
        entry_cost_spec(args) == taker_cost(args),
{
}

// History.

pub open spec fn in_time_order(points: Seq<FundingPoint>) -> bool {
    forall|i: int, j: int|
        0 <= i <= j < points.len() ==> (#[trigger] points[i]).time_ms <= (
        #[trigger] points[j]).time_ms
}

/// Whether a history is in the order of time.
pub fn is_in_time_order(points: &Vec<FundingPoint>) -> (r: bool)
    ensures
        r == in_time_order(points@),
{
    let n: usize = points.len();
    let mut i: usize = 1;
    while i < n
        invariant
            n == points@.len(),
            1 <= i,
            n == 0 || i <= n,
            forall|a: int, b: int|
                0 <= a <= b < i && b < n ==> (#[trigger] points@[a]).time_ms <= (
                #[trigger] points@[b]).time_ms,
        decreases n - i,
    {
        if points[i].time_ms < points[i - 1].time_ms {
            assert(points@[i - 1].time_ms > points@[i as int].time_ms);
            return false;
        }
        assert forall|a: int, b: int| 0 <= a <= b < i + 1 && b < n implies (
        #[trigger] points@[a]).time_ms <= (#[trigger] points@[b]).time_ms by {
            if b == i && a < i {
                assert(points@[a].time_ms <= points@[i - 1].time_ms);
            }
        }
        i = i + 1;
    }
    true
}

/// One more than the place of the last point up to `t`; in a history in the order of time, the
/// number of points up to `t`.
pub open spec fn until(points: Seq<FundingPoint>, t: int) -> nat
    decreases points.len(),
{
    if points.len() == 0 {
        0
    } else if points.last().time_ms <= t {
        points.len()
    } else {
        until(points.drop_last(), t)
    }
}

proof fn lemma_until(points: Seq<FundingPoint>, t: int, k: nat)
    requires
        k <= points.len(),
        forall|i: int| 0 <= i < k ==> (#[trigger] points[i]).time_ms <= t,
        forall|i: int| k <= i < points.len() ==> (#[trigger] points[i]).time_ms > t,
    ensures
        until(points, t) == k,
    decreases points.len(),
{
    if points.len() > k {
        assert(points.last() == points[points.len() - 1]);
        lemma_until(points.drop_last(), t, k);
    } else if points.len() > 0 {
        assert(points.last() == points[points.len() - 1]);
    }
}

/// The points up to a time are exactly those before the place that `until` gives.
pub proof fn until_splits_the_history(points: Seq<FundingPoint>, t: int)
    requires
        in_time_order(points),
    ensures
        until(points, t) <= points.len(),
        forall|i: int| 0 <= i < until(points, t) ==> (#[trigger] points[i]).time_ms <= t,
        forall|i: int| until(points, t) <= i < points.len() ==> (#[trigger] points[i]).time_ms > t,
    decreases points.len(),
{
    if points.len() > 0 {
        assert(points.last() == points[points.len() - 1]);
        if points.last().time_ms > t {
            let rest = points.drop_last();
            assert forall|i: int, j: int| 0 <= i <= j < rest.len() implies (
            #[trigger] rest[i]).time_ms <= (#[trigger] rest[j]).time_ms by {
                assert(rest[i] == points[i] && rest[j] == points[j]);
            }
            until_splits_the_history(rest, t);
            assert forall|i: int| 0 <= i < until(points, t) implies (
            #[trigger] points[i]).time_ms <= t by {
                assert(rest[i] == points[i]);
            }
            assert forall|i: int| until(points, t) <= i < points.len() implies (
            #[trigger] points[i]).time_ms > t by {
                if i < rest.len() {
                    assert(rest[i] == points[i]);
                }
            }
        }
    }
}

/// The number of points up to `t`, by bisection.
fn points_until(points: &Vec<FundingPoint>, t: i64) -> (r: usize)
    requires
        in_time_order(points@),
    ensures
        r == until(points@, t as int),
        r <= points@.len(),
{
    let mut low: usize = 0;
    let mut high: usize = points.len();
    while low < high
        invariant
            in_time_order(points@),
            low <= high <= points@.len(),
            forall|i: int| 0 <= i < low ==> (#[trigger] points@[i]).time_ms <= t,
            forall|i: int| high <= i < points@.len() ==> (#[trigger] points@[i]).time_ms > t,
        decreases high - low,
    {
        let mid: usize = low + (high - low) / 2;
        if points[mid].time_ms <= t {
            assert forall|i: int| 0 <= i < mid + 1 implies (#[trigger] points@[i]).time_ms
                <= t by {
                assert(points@[i].time_ms <= points@[mid as int].time_ms);
            }
            low = mid + 1;
        } else {
            assert forall|i: int| mid <= i < points@.len() implies (#[trigger] points@[i]).time_ms
                > t by {
                assert(points@[mid as int].time_ms <= points@[i].time_ms);
            }
            high = mid;
        }
    }
    proof {
        lemma_until(points@, t as int, low as nat);
    }
    low
}

/// The number of points before `t`.
fn points_before(points: &Vec<FundingPoint>, t: i64) -> (r: usize)
    requires
        in_time_order(points@),
    ensures
        r == before(points@, t as int),
        r <= points@.len(),
{
    if t == i64::MIN {
        proof {
            until_splits_the_history(points@, t - 1);
            if before(points@, t as int) > 0 {
                assert(points@[0].time_ms <= t - 1);
            }
        }
        0
    } else {
        points_until(points, t - 1)
    }
}

/// An hourly rate in percent per year.
pub open spec fn apr_of(rate: Binary64) -> Binary64 {
    rate.times_spec(Binary64::whole(24)).times_spec(Binary64::whole(365)).times_spec(
        Binary64::whole(100),
    )
}

/// An hourly rate in percent per year.
pub fn annualized(rate: Binary64) -> (r: Binary64)
    ensures
        r == apr_of(rate),
{
    rate.times(Binary64::from_whole(24)).times(Binary64::from_whole(365)).times(
        Binary64::from_whole(100),
    )
}

/// The rate in force at a time, in percent per year: that of the last point up to it.
pub open spec fn apr_at_spec(points: Seq<FundingPoint>, t: int) -> Option<Binary64> {
    let k = until(points, t);
    if k == 0 {
        None
    } else {
        Some(apr_of(points[k - 1].rate))
    }
}

/// The rate in force at a time.
pub fn apr_at(points: &Vec<FundingPoint>, t_ms: i64) -> (r: Option<Binary64>)
    requires
        in_time_order(points@),
    ensures
        r == apr_at_spec(points@, t_ms as int),
{
    let k: usize = points_until(points, t_ms);
    if k == 0 {
        None
    } else {
        Some(annualized(points[k - 1].rate))
    }
}

/// The rates of some points, in percent per year.
pub open spec fn aprs_of(points: Seq<FundingPoint>) -> Seq<Binary64> {
    points.map_values(|p: FundingPoint| apr_of(p.rate))
}

/// The number of points before `t`, in a history in the order of time.
pub open spec fn before(points: Seq<FundingPoint>, t: int) -> nat {
    until(points, t - 1)
}

/// What is known of a coin at `t` from the points of the window from `t - lookback` to `t`, both
/// included.
pub open spec fn state_at_spec(
    points: Seq<FundingPoint>,
    t: int,
    lookback: int,
    volume_log: Binary64,
) -> Option<AssetSnap> {
    let from = before(points, t - lookback);
    let to = until(points, t);
    if from >= to {
        None
    } else {
        let aprs = aprs_of(points.subrange(from as int, to as int));
        let about = spread_spec(aprs);
        let score = score_spec(
            aprs.last(),
            about.avg,
            about.std_pct,
            volume_log,
            trend_newest_last(aprs),
        );
        Some(
            AssetSnap {
                apr_now: aprs.last(),
                std_pct: about.std_pct,
                natural_tier: classify_spec(
                    score,
                    about.std_pct,
                    aprs.len(),
                    hourly_requirements(),
                ),
                count: aprs.len() as usize,
            },
        )
    }
}

/// What is known of a coin at a time: nothing where the window is empty.
pub fn state_at(
    points: &Vec<FundingPoint>,
    t_ms: i64,
    lookback_ms: i64,
    volume_log: Binary64,
) -> (r: Option<AssetSnap>)
    requires
        in_time_order(points@),
        i64::MIN <= t_ms - lookback_ms <= i64::MAX,
    ensures
        r == state_at_spec(points@, t_ms as int, lookback_ms as int, volume_log),
{
    let from: usize = points_before(points, t_ms - lookback_ms);
    let to: usize = points_until(points, t_ms);
    if from >= to {
        return None;
    }
    let mut aprs: Vec<Binary64> = Vec::new();
    let mut i: usize = from;
    while i < to
        invariant
            from <= i <= to <= points@.len(),
            aprs@ == aprs_of(points@.subrange(from as int, i as int)),
        decreases to - i,
    {
        aprs.push(annualized(points[i].rate));
        i = i + 1;
        assert(aprs@ =~= aprs_of(points@.subrange(from as int, i as int)));
    }
    let n: usize = aprs.len();
    let apr_now = aprs[n - 1];
    let about = spread(&aprs);
    let direction = if n >= 3 {
        trend(aprs[n - 3], aprs[n - 2], aprs[n - 1])
    } else {
        TrendDir::Flat
    };
    let score = compute_score(apr_now, about.avg, about.std_pct, volume_log, direction);
    Some(
        AssetSnap {
            apr_now,
            std_pct: about.std_pct,
            natural_tier: classify_tier(score, about.std_pct, n),
            count: n,
        },
    )
}

/// The rate of the last point after `low` and up to `high`.
pub open spec fn rate_between(points: Seq<FundingPoint>, low: int, high: int) -> Option<Binary64>
    decreases points.len(),
{
    if points.len() == 0 {
        None
    } else if low < points.last().time_ms <= high {
        Some(points.last().rate)
    } else {
        rate_between(points.drop_last(), low, high)
    }
}

pub(crate) fn rate_within(points: &Vec<FundingPoint>, low: i64, high: i64) -> (r: Option<Binary64>)
    ensures
        r == rate_between(points@, low as int, high as int),
{
    let mut i: usize = points.len();
    assert(points@.take(i as int) =~= points@);
    while i > 0
        invariant
            i <= points@.len(),
            rate_between(points@.take(i as int), low as int, high as int) == rate_between(
                points@,
                low as int,
                high as int,
            ),
        decreases i,
    {
        let p: FundingPoint = points[i - 1];
        assert(points@.take(i as int).last() == p);
        assert(points@.take(i as int).drop_last() =~= points@.take(i - 1));
        if p.time_ms > low && p.time_ms <= high {
            return Some(p.rate);
        }
        i = i - 1;
    }
    None
}

// Rules of entry and exit.

/// A position may be opened.
pub open spec fn admit_spec(args: BacktestArgs, snap: AssetSnap) -> bool {
    let apr = snap.apr_now.abs_spec();
    if args.exit_strategy == CliExitStrategy::Hysteresis {
        args.hysteresis_entry_apr.at_most(apr) && snap.std_pct.below(70)
    } else {
        match args.min_funding_apr {
            Some(threshold) => threshold.at_most(apr) && snap.std_pct.below(70),
            None => match snap.natural_tier {
                Some(t) => rank_spec(t) >= cli_rank_spec(args.min_tier),
                None => false,
            },
        }
    }
}

/// A position may be kept.
pub open spec fn still_admit_spec(args: BacktestArgs, snap: Option<AssetSnap>) -> bool {
    match args.exit_strategy {
        CliExitStrategy::MaxHoldOnly => true,
        CliExitStrategy::Hysteresis => match snap {
            None => false,
            Some(s) => args.hysteresis_exit_apr.at_most(s.apr_now.abs_spec()),
        },
        CliExitStrategy::Std => match (args.min_funding_apr, snap) {
            (_, None) => false,
            (Some(threshold), Some(s)) => threshold.at_most(s.apr_now.abs_spec())
                && s.std_pct.below(70),
            (None, Some(s)) => match s.natural_tier {
                Some(t) => rank_spec(t) >= cli_rank_spec(args.min_tier),
                None => false,
            },
        },
    }
}

/// Whether a position may be opened.
pub fn admits(args: &BacktestArgs, snap: &AssetSnap) -> (r: bool)
    ensures
        r == admit_spec(*args, *snap),
{
    let apr = snap.apr_now.abs();
    if args.exit_strategy == CliExitStrategy::Hysteresis {
        return args.hysteresis_entry_apr.is_at_most(apr) && snap.std_pct.is_below(70);
    }
    match args.min_funding_apr {
        Some(threshold) => threshold.is_at_most(apr) && snap.std_pct.is_below(70),
        None => match snap.natural_tier {
            Some(t) => min_tier_satisfied(args.min_tier, t),
            None => false,
        },
    }
}

/// Whether a position may be kept.
pub fn still_admit(args: &BacktestArgs, snap: Option<AssetSnap>) -> (r: bool)
    ensures
        r == still_admit_spec(*args, snap),
{
    match args.exit_strategy {
        CliExitStrategy::MaxHoldOnly => true,
        CliExitStrategy::Hysteresis => match snap {
            None => false,
            Some(s) => args.hysteresis_exit_apr.is_at_most(s.apr_now.abs()),
        },
        CliExitStrategy::Std => match snap {
            None => false,
            Some(s) => match args.min_funding_apr {
                Some(threshold) => threshold.is_at_most(s.apr_now.abs()) && s.std_pct.is_below(70),
                None => match s.natural_tier {
                    Some(t) => min_tier_satisfied(args.min_tier, t),
                    None => false,
                },
            },
        },
    }
}

/// What may be opened may also be kept.
pub proof fn what_may_be_opened_may_be_kept(args: BacktestArgs, snap: AssetSnap)
    requires
        admit_spec(args, snap),
        args.exit_strategy == CliExitStrategy::Hysteresis ==> args.hysteresis_exit_apr.at_most(
            args.hysteresis_entry_apr,
        ),
    ensures
        still_admit_spec(args, Some(snap)),
{
}

/// Entries are sized and ranked by the rate alone.
pub open spec fn rate_only(args: BacktestArgs) -> bool {
    args.exit_strategy == CliExitStrategy::Hysteresis || args.min_funding_apr is Some
}

pub(crate) fn is_rate_only(args: &BacktestArgs) -> (r: bool)
    ensures
        r == rate_only(*args),
{
    args.exit_strategy == CliExitStrategy::Hysteresis || args.min_funding_apr.is_some()
}

} // verus!
