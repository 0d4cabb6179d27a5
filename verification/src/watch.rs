//! The dashboard: what it shows, out of the readings of the last hours.

use crate::binary64::Binary64;
use crate::dates::{moment_text, or_else_text, utc_text};
use crate::decimal::{
    append_decimal, append_fixed, append_signed, decimal, fixed, signed_decimal, text, texts,
};
use crate::grouping::{count_of, distinct, group_by_name, members_of, Group};
use crate::messages::{daily_yield, side_label, side_of, yield_of};
use crate::order::{by_falling_value, descending, descending_order, double_keys};
use crate::signals::{
    assets_of, classify_live, compute_stats, hour_stats, is_trap, lemma_places_in_range,
    lemma_stats_in_range, list_assets, liquidities, live_requirements, places_of, rates_at, score,
    score_of, trap_spec, HourStats, Reading, DEFAULT_CADENCE,
};
use crate::simulation::truncated;
use crate::stats::{
    percent_of_mean, relative_deviation, spread, spread_spec, TrendDir,
};
use crate::summary::least;
use crate::tier::{classify_spec, Tier};
use crate::util::{bytes_text, format_bytes, format_usd, usd_text};
use vstd::prelude::*;
use vstd::string::*;

verus! {

/// The least number of readings of six hours: sixty percent of seventy-two, in whole readings.
pub const MIN_COUNT_6H: usize = 43;

/// The dashboard is brought up to date after so many milliseconds.
pub const REFRESH_MS: u64 = 5_000;

/// How far a signal is to be trusted.
#[derive(Clone, Copy, Debug, PartialEq, Eq, Structural)]
pub enum ConfidenceTier {
    Strong,
    Medium,
    Early,
    Weak,
    /// A huge rate without liquidity: shown as a warning.
    Trap,
}

/// The colours of the dashboard.
#[derive(Clone, Copy, Debug, PartialEq, Eq, Structural)]
pub enum Tone {
    Green,
    Cyan,
    Yellow,
    Orange,
    Red,
    Gray,
    White,
}

pub open spec fn confidence_of(t: Tier) -> ConfidenceTier {
    match t {
        Tier::Strong => ConfidenceTier::Strong,
        Tier::Medium => ConfidenceTier::Medium,
        Tier::Early => ConfidenceTier::Early,
        Tier::Weak => ConfidenceTier::Weak,
    }
}

/// The tier of a signal, as the dashboard knows it.
pub fn confidence(t: Tier) -> (r: ConfidenceTier)
    ensures
        r == confidence_of(t),
{
    match t {
        Tier::Strong => ConfidenceTier::Strong,
        Tier::Medium => ConfidenceTier::Medium,
        Tier::Early => ConfidenceTier::Early,
        Tier::Weak => ConfidenceTier::Weak,
    }
}

pub open spec fn size_range(tier: ConfidenceTier) -> Seq<char> {
    match tier {
        ConfidenceTier::Strong => "$150-200"@,
        ConfidenceTier::Medium => "$80-120"@,
        ConfidenceTier::Early => "$30-50"@,
        ConfidenceTier::Weak => "$10-20"@,
        ConfidenceTier::Trap => "—"@,
    }
}

/// The size that is recommended for a tier; none for a trap.
pub fn tier_size(tier: ConfidenceTier) -> (r: &'static str)
    ensures
        r@ == size_range(tier),
{
    match tier {
        ConfidenceTier::Strong => "$150-200",
        ConfidenceTier::Medium => "$80-120",
        ConfidenceTier::Early => "$30-50",
        ConfidenceTier::Weak => "$10-20",
        ConfidenceTier::Trap => "—",
    }
}

pub open spec fn confidence_label(tier: ConfidenceTier) -> Seq<char> {
    match tier {
        ConfidenceTier::Strong => "STRONG"@,
        ConfidenceTier::Medium => "MEDIUM"@,
        ConfidenceTier::Early => "EARLY"@,
        ConfidenceTier::Weak => "WEAK"@,
        ConfidenceTier::Trap => "TRAP"@,
    }
}

/// The name of a tier.
pub fn tier_label(tier: ConfidenceTier) -> (r: &'static str)
    ensures
        r@ == confidence_label(tier),
{
    match tier {
        ConfidenceTier::Strong => "STRONG",
        ConfidenceTier::Medium => "MEDIUM",
        ConfidenceTier::Early => "EARLY",
        ConfidenceTier::Weak => "WEAK",
        ConfidenceTier::Trap => "TRAP",
    }
}

/// The colour of a tier.
pub fn tier_color(tier: ConfidenceTier) -> (r: Tone)
    ensures
        r == (match tier {
            ConfidenceTier::Strong => Tone::Green,
            ConfidenceTier::Medium => Tone::Cyan,
            ConfidenceTier::Early => Tone::Yellow,
            ConfidenceTier::Weak => Tone::Gray,
            ConfidenceTier::Trap => Tone::Red,
        }),
{
    match tier {
        ConfidenceTier::Strong => Tone::Green,
        ConfidenceTier::Medium => Tone::Cyan,
        ConfidenceTier::Early => Tone::Yellow,
        ConfidenceTier::Weak => Tone::Gray,
        ConfidenceTier::Trap => Tone::Red,
    }
}

/// The colour of a score: green from 70, yellow from 50, orange below.
pub fn score_color(points: Binary64) -> (r: Tone)
    ensures
        r == (if points.reaches(70) {
            Tone::Green
        } else if points.reaches(50) {
            Tone::Yellow
        } else {
            Tone::Orange
        }),
{
    if points.is_reaching(70) {
        Tone::Green
    } else if points.is_reaching(50) {
        Tone::Yellow
    } else {
        Tone::Orange
    }
}

/// The colour of a rate: red above 100 percent either way, yellow above 50.
pub fn apr_color(apr: Binary64) -> (r: Tone)
    ensures
        r == (if apr.abs_spec().above(100) {
            Tone::Red
        } else if apr.abs_spec().above(50) {
            Tone::Yellow
        } else {
            Tone::White
        }),
{
    if apr.abs().is_above(100) {
        Tone::Red
    } else if apr.abs().is_above(50) {
        Tone::Yellow
    } else {
        Tone::White
    }
}

/// The colour of a deviation: green below 30 percent of the mean, red above 70, and none where the
/// mean is next to nothing.
pub fn std_color(avg: Binary64, std: Binary64) -> (r: Tone)
    ensures
        r == ({
            let ratio = std.over_spec(avg.abs_spec());
            if avg.abs_spec().less(Binary64::ratio(1, 1_000_000_000)) {
                Tone::White
            } else if ratio.less(Binary64::ratio(3, 10)) {
                Tone::Green
            } else if Binary64::ratio(7, 10).less(ratio) {
                Tone::Red
            } else {
                Tone::White
            }
        }),
{
    if avg.abs().is_less(Binary64::from_ratio(1, 1_000_000_000)) {
        return Tone::White;
    }
    let ratio = std.over(avg.abs());
    if ratio.is_less(Binary64::from_ratio(3, 10)) {
        Tone::Green
    } else if Binary64::from_ratio(7, 10).is_less(ratio) {
        Tone::Red
    } else {
        Tone::White
    }
}

/// The colour of the side that receives the funding.
pub fn side_color(apr: Binary64) -> (r: Tone)
    ensures
        r == (if apr.reaches(0) {
            Tone::Red
        } else {
            Tone::Green
        }),
{
    if apr.is_reaching(0) {
        Tone::Red
    } else {
        Tone::Green
    }
}

pub open spec fn receiving_side(apr: Binary64) -> Seq<char> {
    if apr.reaches(0) {
        "SHORT"@
    } else {
        "LONG"@
    }
}

/// The side that receives the funding: a positive rate is paid by the long side.
pub fn side_str(apr: Binary64) -> (r: &'static str)
    ensures
        r@ == receiving_side(apr),
{
    if apr.is_reaching(0) {
        "SHORT"
    } else {
        "LONG"
    }
}

pub open spec fn arrow_of(d: TrendDir) -> Seq<char> {
    match d {
        TrendDir::Up => "↑"@,
        TrendDir::Down => "↓"@,
        TrendDir::Flat => "→"@,
    }
}

/// A trend as an arrow.
pub fn dir_arrow(d: TrendDir) -> (r: &'static str)
    ensures
        r@ == arrow_of(d),
{
    match d {
        TrendDir::Up => "↑",
        TrendDir::Down => "↓",
        TrendDir::Flat => "→",
    }
}

// The movers.

pub open spec fn sizes_of(stats: Seq<HourStats>) -> Seq<Binary64> {
    stats.map_values(|s: HourStats| s.apr_now.abs_spec())
}

/// The assets with the largest rates either way, fifteen at most, the largest first.
pub open spec fn movers_of(stats: Seq<HourStats>) -> Seq<HourStats> {
    let order = descending(double_keys(sizes_of(stats)));
    order.take(least(15, stats.len()) as int).map_values(|i: usize| stats[i as int])
}

/// The assets with the largest rates either way.
pub fn top_movers(stats: &Vec<HourStats>) -> (r: Vec<HourStats>)
    ensures
        r@ == movers_of(stats@),
{
    let n: usize = stats.len();
    let mut sizes: Vec<Binary64> = Vec::new();
    let mut i: usize = 0;
    while i < n
        invariant
            n == stats@.len(),
            i <= n,
            sizes@ =~= sizes_of(stats@.take(i as int)),
        decreases n - i,
    {
        sizes.push(stats[i].apr_now.abs());
        i = i + 1;
    }
    assert(stats@.take(n as int) =~= stats@);
    let order = by_falling_value(&sizes);
    let count: usize = if n < 15 {
        n
    } else {
        15
    };
    let mut out: Vec<HourStats> = Vec::new();
    let mut k: usize = 0;
    while k < count
        invariant
            k <= count <= n,
            n == stats@.len(),
            n == order@.len(),
            forall|j: int| 0 <= j < n ==> (#[trigger] order@[j]) < n,
            out@ =~= order@.take(k as int).map_values(|j: usize| stats@[j as int]),
        decreases count - k,
    {
        out.push(stats[order[k]]);
        k = k + 1;
    }
    out
}

// The actions.

/// What to do about an asset.
pub struct ActionRow {
    pub asset: String,
    pub action: String,
    /// Zero for a trap.
    pub score: Binary64,
    pub tier: ConfidenceTier,
    pub risks: String,
}

/// What to do about an asset, as texts.
pub struct ActionView {
    pub asset: Seq<char>,
    pub action: Seq<char>,
    pub score: Binary64,
    pub tier: ConfidenceTier,
    pub risks: Seq<char>,
}

pub open spec fn action_view(a: ActionRow) -> ActionView {
    ActionView {
        asset: a.asset@,
        action: a.action@,
        score: a.score,
        tier: a.tier,
        risks: a.risks@,
    }
}

pub open spec fn action_views(rows: Seq<ActionRow>) -> Seq<ActionView> {
    rows.map_values(|a: ActionRow| action_view(a))
}

/// The risks of a position: a low volume, a high deviation, few readings.
pub open spec fn risks_text(volume: Binary64, std_pct: Binary64, count_6h: nat) -> Seq<char> {
    let low = volume.below(500_000);
    let high = std_pct.above(50);
    let new = count_6h < 12;
    if low && high && new {
        "Low volume, High volatility, New signal"@
    } else if low && high {
        "Low volume, High volatility"@
    } else if low && new {
        "Low volume, New signal"@
    } else if high && new {
        "High volatility, New signal"@
    } else if low {
        "Low volume"@
    } else if high {
        "High volatility"@
    } else if new {
        "New signal"@
    } else {
        "Liquid + stable"@
    }
}

/// The risks of a position.
pub fn build_risks(volume: Binary64, std_pct: Binary64, count_6h: usize) -> (r: String)
    ensures
        r@ == risks_text(volume, std_pct, count_6h as nat),
{
    let low: bool = volume.is_below(500_000);
    let high: bool = std_pct.is_above(50);
    let new: bool = count_6h < 12;
    if low && high && new {
        text("Low volume, High volatility, New signal")
    } else if low && high {
        text("Low volume, High volatility")
    } else if low && new {
        text("Low volume, New signal")
    } else if high && new {
        text("High volatility, New signal")
    } else if low {
        text("Low volume")
    } else if high {
        text("High volatility")
    } else if new {
        text("New signal")
    } else {
        text("Liquid + stable")
    }
}

pub open spec fn action_text(apr: Binary64) -> Seq<char> {
    side_of(apr) + " to earn $"@ + fixed(daily_yield(apr), 2, false) + "/day per $100"@
}

/// What to do about an asset that is no trap.
fn action(apr: Binary64) -> (r: String)
    ensures
        r@ == action_text(apr),
{
    let mut l = text(side_label(apr));
    l.append(" to earn $");
    append_fixed(&mut l, yield_of(apr), 2, false);
    l.append("/day per $100");
    l
}

pub open spec fn trap_risk_text(apr: Binary64, volume: Binary64) -> Seq<char> {
    "APR "@ + fixed(apr, 0, true) + "% with vol "@ + usd_text(volume) + " < $1M"@
}

/// Why an asset is a trap.
fn trap_risk(apr: Binary64, volume: Binary64) -> (r: String)
    ensures
        r@ == trap_risk_text(apr, volume),
{
    let amount = format_usd(volume);
    let mut l = text("APR ");
    append_fixed(&mut l, apr, 0, true);
    l.append("% with vol ");
    l.append(amount.as_str());
    l.append(" < $1M");
    l
}

/// What to do about an asset; nothing where no tier fits.
pub open spec fn action_of(
    s: HourStats,
    asset: Seq<char>,
    count_6h: nat,
    logs: Seq<Binary64>,
) -> Option<ActionView> {
    if trap_spec(s.apr_now, s.volume_24h) {
        Some(
            ActionView {
                asset,
                action: "TRAP — possible manipulation"@,
                score: Binary64::whole(0),
                tier: ConfidenceTier::Trap,
                risks: trap_risk_text(s.apr_now, s.volume_24h),
            },
        )
    } else {
        match classify_spec(score_of(s, logs), s.std_pct, count_6h, live_requirements()) {
            Some(tier) => Some(
                ActionView {
                    asset,
                    action: action_text(s.apr_now),
                    score: score_of(s, logs),
                    tier: confidence_of(tier),
                    risks: risks_text(s.volume_24h, s.std_pct, count_6h),
                },
            ),
            None => None,
        }
    }
}

fn make_action(s: &HourStats, asset: &String, count_6h: usize, logs: &Vec<Binary64>) -> (r: Option<
    ActionRow,
>)
    requires
        s.group < logs@.len(),
    ensures
        match r {
            Some(a) => action_of(*s, asset@, count_6h as nat, logs@) == Some(action_view(a)),
            None => action_of(*s, asset@, count_6h as nat, logs@) is None,
        },
{
    if is_trap(s.apr_now, s.volume_24h) {
        return Some(
            ActionRow {
                asset: asset.clone(),
                action: text("TRAP — possible manipulation"),
                score: Binary64::from_whole(0),
                tier: ConfidenceTier::Trap,
                risks: trap_risk(s.apr_now, s.volume_24h),
            },
        );
    }
    let points = score(s, logs);
    match classify_live(points, s.std_pct, count_6h) {
        Some(tier) => Some(
            ActionRow {
                asset: asset.clone(),
                action: action(s.apr_now),
                score: points,
                tier: confidence(tier),
                risks: build_risks(s.volume_24h, s.std_pct, count_6h),
            },
        ),
        None => None,
    }
}

/// The actions on the first `n` assets.
pub open spec fn actions_until(
    rows: Seq<Reading>,
    recent: Seq<Reading>,
    logs: Seq<Binary64>,
    n: nat,
) -> Seq<ActionView>
    decreases n,
{
    if n == 0 {
        Seq::empty()
    } else {
        let before = actions_until(rows, recent, logs, (n - 1) as nat);
        let s = hour_stats(rows)[n - 1];
        let asset = rows[s.newest as int].asset@;
        match action_of(s, asset, members_of(assets_of(recent), asset).len(), logs) {
            Some(a) => before.push(a),
            None => before,
        }
    }
}

/// The larger, the sooner an action is shown: traps before all others, then by the score.
pub open spec fn action_key(a: ActionView) -> u128 {
    (a.score.key() + (if a.tier == ConfidenceTier::Trap {
        0x1_0000_0000_0000_0000int
    } else {
        0
    })) as u128
}

pub open spec fn action_keys(actions: Seq<ActionView>) -> Seq<u128> {
    actions.map_values(|a: ActionView| action_key(a))
}

/// The actions, ten at most, traps first, then the best score first.
pub open spec fn shown_actions(actions: Seq<ActionView>) -> Seq<ActionView> {
    let order = descending(action_keys(actions));
    order.take(least(10, actions.len()) as int).map_values(|i: usize| actions[i as int])
}

fn copy_action(a: &ActionRow) -> (r: ActionRow)
    ensures
        action_view(r) == action_view(*a),
{
    ActionRow {
        asset: a.asset.clone(),
        action: a.action.clone(),
        score: a.score,
        tier: a.tier,
        risks: a.risks.clone(),
    }
}

fn choose_actions(actions: &Vec<ActionRow>) -> (r: Vec<ActionRow>)
    ensures
        action_views(r@) == shown_actions(action_views(actions@)),
{
    let ghost views = action_views(actions@);
    let n: usize = actions.len();
    let mut keys: Vec<u128> = Vec::new();
    let mut i: usize = 0;
    while i < n
        invariant
            n == actions@.len(),
            views == action_views(actions@),
            i <= n,
            keys@ =~= action_keys(views.take(i as int)),
        decreases n - i,
    {
        let own: u128 = actions[i].score.sort_key() as u128;
        let key: u128 = if actions[i].tier == ConfidenceTier::Trap {
            own + 0x1_0000_0000_0000_0000
        } else {
            own
        };
        assert(views[i as int] == action_view(actions@[i as int]));
        assert(key == action_key(views[i as int]));
        keys.push(key);
        i = i + 1;
    }
    assert(views.take(n as int) =~= views);
    let order = descending_order(&keys);
    let count: usize = if n < 10 {
        n
    } else {
        10
    };
    let mut out: Vec<ActionRow> = Vec::new();
    let mut k: usize = 0;
    while k < count
        invariant
            k <= count <= n,
            n == actions@.len(),
            n == order@.len(),
            views == action_views(actions@),
            forall|j: int| 0 <= j < n ==> (#[trigger] order@[j]) < n,
            action_views(out@) =~= order@.take(k as int).map_values(|j: usize| views[j as int]),
        decreases count - k,
    {
        let ghost before = action_views(out@);
        out.push(copy_action(&actions[order[k]]));
        assert(action_views(out@) =~= before.push(views[order@[k as int] as int]));
        k = k + 1;
    }
    out
}

/// A trap is shown before every other action.
pub proof fn traps_are_shown_first(actions: Seq<ActionView>, i: int, j: int)
    requires
        actions.len() <= usize::MAX,
        0 <= i < j < shown_actions(actions).len(),
        shown_actions(actions)[j].tier == ConfidenceTier::Trap,
    ensures
        shown_actions(actions)[i].tier == ConfidenceTier::Trap,
{
    let keys = action_keys(actions);
    crate::order::descending_is_a_stable_sort(keys);
    let order = descending(keys);
    let a = order[i] as int;
    let b = order[j] as int;
    assert(shown_actions(actions)[i] == actions[a]);
    assert(shown_actions(actions)[j] == actions[b]);
    assert(keys[a] == action_key(actions[a]) && keys[b] == action_key(actions[b]));
}

/// The actions, out of the readings of the last hour and of the last six.
pub fn list_actions(rows: &Vec<Reading>, recent: &Vec<Reading>, logs: &Vec<Binary64>) -> (r: Vec<
    ActionRow,
>)
    requires
        logs@.len() == liquidities(rows@).len(),
    ensures
        action_views(r@) == shown_actions(
            actions_until(rows@, recent@, logs@, hour_stats(rows@).len()),
        ),
{
    let stats = compute_stats(rows);
    let names = list_assets(recent);
    assert(rows@.len() == rows.len());
    proof {
        lemma_stats_in_range(rows@, distinct(assets_of(rows@)).len());
    }
    let mut all: Vec<ActionRow> = Vec::new();
    let n: usize = stats.len();
    let mut i: usize = 0;
    assert(action_views(all@) =~= Seq::<ActionView>::empty());
    while i < n
        invariant
            n == stats@.len(),
            i <= n,
            stats@ == hour_stats(rows@),
            texts(names@) == assets_of(recent@),
            forall|k: int|
                0 <= k < n ==> (#[trigger] stats@[k]).group < logs@.len() && stats@[k].newest
                    < rows@.len(),
            action_views(all@) == actions_until(rows@, recent@, logs@, i as nat),
        decreases n - i,
    {
        let s: HourStats = stats[i];
        assert(stats@[i as int].newest < rows@.len());
        let count: usize = count_of(&names, &rows[s.newest].asset);
        match make_action(&s, &rows[s.newest].asset, count, logs) {
            Some(a) => {
                let ghost before = action_views(all@);
                all.push(a);
                assert(action_views(all@) =~= before.push(action_view(a)));
            },
            None => {},
        }
        i = i + 1;
    }
    choose_actions(&all)
}

// The candidates.

/// An asset with a high and steady rate.
#[derive(Clone, Copy, Debug)]
pub struct CandidateRow {
    /// The place of its newest reading.
    pub newest: usize,
    pub avg_apr: Binary64,
    pub std_apr: Binary64,
    pub snap_count: usize,
    pub score: Binary64,
}

/// What six hours of readings at some places say of an asset; nothing where there are too few of
/// them, where the mean rate is below 30 percent, the deviation not below half of it, or the
/// volume below a million dollars.
pub open spec fn candidate_at(rows: Seq<Reading>, places: Seq<usize>) -> Option<CandidateRow> {
    let s = spread_spec(rates_at(rows, places));
    let size = s.avg.abs_spec();
    if places.len() < MIN_COUNT_6H || size.below(30) || size.times_spec(
        Binary64::ratio(5, 10),
    ).at_most(s.std) || rows[places[0] as int].volume.below(1_000_000) {
        None
    } else {
        Some(
            CandidateRow {
                newest: places[0],
                avg_apr: s.avg,
                std_apr: s.std,
                snap_count: places.len() as usize,
                score: size.times_spec(
                    Binary64::whole(1).minus_spec(s.std.over_spec(size)),
                ),
            },
        )
    }
}

/// The candidates among the first `n` distinct assets.
pub open spec fn candidates_until(rows: Seq<Reading>, n: nat) -> Seq<CandidateRow>
    decreases n,
{
    if n == 0 {
        Seq::empty()
    } else {
        let before = candidates_until(rows, (n - 1) as nat);
        match candidate_at(rows, places_of(rows, n - 1)) {
            Some(c) => before.push(c),
            None => before,
        }
    }
}

pub open spec fn scores_of(rows: Seq<CandidateRow>) -> Seq<Binary64> {
    rows.map_values(|c: CandidateRow| c.score)
}

/// The candidates, the best score first.
pub open spec fn candidates_of(rows: Seq<Reading>) -> Seq<CandidateRow> {
    let all = candidates_until(rows, distinct(assets_of(rows)).len());
    descending(double_keys(scores_of(all))).map_values(|i: usize| all[i as int])
}

fn candidate(rows: &Vec<Reading>, places: &Vec<usize>) -> (r: Option<CandidateRow>)
    requires
        forall|k: int| 0 <= k < places@.len() ==> (#[trigger] places@[k]) < rows@.len(),
    ensures
        r == candidate_at(rows@, places@),
{
    let n: usize = places.len();
    if n < MIN_COUNT_6H {
        return None;
    }
    let mut rates: Vec<Binary64> = Vec::new();
    let mut i: usize = 0;
    while i < n
        invariant
            n == places@.len(),
            i <= n,
            forall|k: int| 0 <= k < places@.len() ==> (#[trigger] places@[k]) < rows@.len(),
            rates@ =~= rates_at(rows@, places@.take(i as int)),
        decreases n - i,
    {
        rates.push(rows[places[i]].apr);
        i = i + 1;
    }
    assert(places@.take(n as int) =~= places@);
    let s = spread(&rates);
    let size = s.avg.abs();
    if size.is_below(30) {
        return None;
    }
    if size.times(Binary64::from_ratio(5, 10)).is_at_most(s.std) {
        return None;
    }
    if rows[places[0]].volume.is_below(1_000_000) {
        return None;
    }
    Some(
        CandidateRow {
            newest: places[0],
            avg_apr: s.avg,
            std_apr: s.std,
            snap_count: n,
            score: size.times(Binary64::from_whole(1).minus(s.std.over(size))),
        },
    )
}

/// The candidates, out of six hours of readings, the best score first.
pub fn list_candidates(rows: &Vec<Reading>) -> (r: Vec<CandidateRow>)
    ensures
        r@ == candidates_of(rows@),
{
    let names = list_assets(rows);
    let groups: Vec<Group> = group_by_name(&names);
    assert(rows@.len() == rows.len());
    let mut all: Vec<CandidateRow> = Vec::new();
    let mut scores: Vec<Binary64> = Vec::new();
    let n: usize = groups.len();
    let mut g: usize = 0;
    while g < n
        invariant
            n == groups@.len(),
            n == distinct(assets_of(rows@)).len(),
            g <= n,
            rows@.len() <= usize::MAX,
            forall|k: int|
                0 <= k < n ==> (#[trigger] groups@[k]).members@ == places_of(rows@, k),
            all@ == candidates_until(rows@, g as nat),
            scores@ =~= scores_of(all@),
        decreases n - g,
    {
        proof {
            assert(groups@[g as int].members@ == places_of(rows@, g as int));
            lemma_places_in_range(
                assets_of(rows@),
                distinct(assets_of(rows@))[g as int],
                rows@.len(),
            );
        }
        match candidate(rows, &groups[g].members) {
            Some(c) => {
                scores.push(c.score);
                all.push(c);
            },
            None => {},
        }
        g = g + 1;
    }
    let order = by_falling_value(&scores);
    let count: usize = all.len();
    let mut out: Vec<CandidateRow> = Vec::new();
    let mut k: usize = 0;
    while k < count
        invariant
            k <= count,
            count == all@.len(),
            count == order@.len(),
            forall|j: int| 0 <= j < count ==> (#[trigger] order@[j]) < count,
            out@ =~= order@.take(k as int).map_values(|j: usize| all@[j as int]),
        decreases count - k,
    {
        out.push(all[order[k]]);
        k = k + 1;
    }
    assert(order@.take(count as int) =~= order@);
    out
}

// The messages in place of empty sections.

/// The time from the first to the last reading, in seconds; zero where there is none.
pub open spec fn span_spec(first: Option<i64>, last: Option<i64>) -> int {
    match (first, last) {
        (Some(f), Some(l)) => l - f,
        _ => 0,
    }
}

/// That time fits a machine integer.
pub open spec fn span_fits(first: Option<i64>, last: Option<i64>) -> bool {
    i64::MIN <= span_spec(first, last) <= i64::MAX
}

/// Whether the time from the first to the last reading can be told.
pub fn does_span_fit(first: Option<i64>, last: Option<i64>) -> (r: bool)
    ensures
        r == span_fits(first, last),
{
    match (first, last) {
        (Some(f), Some(l)) => {
            let d: i128 = l as i128 - f as i128;
            i64::MIN as i128 <= d && d <= i64::MAX as i128
        },
        _ => true,
    }
}

/// The time from the first to the last reading, in seconds.
pub fn history_seconds(first: Option<i64>, last: Option<i64>) -> (r: i64)
    requires
        span_fits(first, last),
    ensures
        r == span_spec(first, last),
{
    match (first, last) {
        (Some(f), Some(l)) => l - f,
        _ => 0,
    }
}

/// `seconds / 3600`, as a decimal fraction.
pub open spec fn hours_of(seconds: int) -> Binary64 {
    Binary64::whole(seconds).over_spec(Binary64::whole(3600))
}

fn hours(seconds: i64) -> (r: Binary64)
    ensures
        r == hours_of(seconds as int),
{
    Binary64::from_whole(seconds).over(Binary64::from_whole(3600))
}

pub open spec fn need_hour_text(span: int) -> Seq<char> {
    "Need more data: have ~"@ + signed_decimal(truncated(span, 60) as int)
        + " min of history, need at least 1h with ≥8 snapshots per asset"@
}

/// There are too few readings for the movers.
fn need_hour(span: i64) -> (r: String)
    ensures
        r@ == need_hour_text(span as int),
{
    let mut l = text("Need more data: have ~");
    append_signed(&mut l, span / 60);
    l.append(" min of history, need at least 1h with ≥8 snapshots per asset");
    l
}

pub open spec fn need_data_text(span: int) -> Seq<char> {
    "Need at least 1h of data; currently have ~"@ + signed_decimal(truncated(span, 60) as int)
        + " min"@
}

/// There are too few readings for the actions.
fn need_data(span: i64) -> (r: String)
    ensures
        r@ == need_data_text(span as int),
{
    let mut l = text("Need at least 1h of data; currently have ~");
    append_signed(&mut l, span / 60);
    l.append(" min");
    l
}

pub open spec fn need_six_hours_text(span: int) -> Seq<char> {
    "No candidates yet. Persistent analysis needs ≥6h of data, currently have "@
        + fixed(hours_of(span), 1, false) + "h"@
}

/// There are too few readings for the candidates.
fn need_six_hours(span: i64) -> (r: String)
    ensures
        r@ == need_six_hours_text(span as int),
{
    let mut l = text("No candidates yet. Persistent analysis needs ≥6h of data, currently have ");
    append_fixed(&mut l, hours(span), 1, false);
    l.append("h");
    l
}

/// What stands in place of the movers.
pub open spec fn movers_note(movers: nat, span: int) -> Option<Seq<char>> {
    if movers == 0 {
        Some(need_hour_text(span))
    } else {
        None
    }
}

/// What stands in place of the actions.
pub open spec fn actions_note(actions: nat, stats: nat, span: int) -> Option<Seq<char>> {
    if actions > 0 {
        None
    } else if stats == 0 {
        Some(need_data_text(span))
    } else {
        Some("No action signals match scoring filters yet."@)
    }
}

/// What stands in place of the candidates.
pub open spec fn candidates_note(candidates: nat, span: int) -> Option<Seq<char>> {
    if candidates > 0 {
        None
    } else if span < 6 * 3600 {
        Some(need_six_hours_text(span))
    } else {
        Some("No persistent candidates matching filters yet. Market may be in transition."@)
    }
}

/// A note, if there is one.
pub open spec fn note_view(note: Option<String>) -> Option<Seq<char>> {
    match note {
        Some(s) => Some(s@),
        None => None,
    }
}

/// What the dashboard shows.
pub struct Dashboard {
    pub movers: Vec<HourStats>,
    pub actions: Vec<ActionRow>,
    pub candidates: Vec<CandidateRow>,
    /// What stands in place of the movers.
    pub section2_msg: Option<String>,
    /// What stands in place of the actions.
    pub action_msg: Option<String>,
    /// What stands in place of the candidates.
    pub section3_msg: Option<String>,
}

fn note_on_actions(actions: usize, stats: usize, span: i64) -> (r: Option<String>)
    ensures
        note_view(r) == actions_note(actions as nat, stats as nat, span as int),
{
    if actions > 0 {
        None
    } else if stats == 0 {
        Some(need_data(span))
    } else {
        Some(text("No action signals match scoring filters yet."))
    }
}

fn note_on_candidates(candidates: usize, span: i64) -> (r: Option<String>)
    ensures
        note_view(r) == candidates_note(candidates as nat, span as int),
{
    if candidates > 0 {
        None
    } else if span < 6 * 3600 {
        Some(need_six_hours(span))
    } else {
        Some(text("No persistent candidates matching filters yet. Market may be in transition."))
    }
}

/// What the dashboard shows, out of the readings of the last hour and of the last six, each newest
/// first. `logs` holds the decimal logarithms of the liquidities of the last hour's assets.
pub fn build_dashboard(
    rows: &Vec<Reading>,
    recent: &Vec<Reading>,
    logs: &Vec<Binary64>,
    first: Option<i64>,
    last: Option<i64>,
) -> (r: Dashboard)
    requires
        logs@.len() == liquidities(rows@).len(),
        span_fits(first, last),
    ensures
        r.movers@ == movers_of(hour_stats(rows@)),
        action_views(r.actions@) == shown_actions(
            actions_until(rows@, recent@, logs@, hour_stats(rows@).len()),
        ),
        r.candidates@ == candidates_of(recent@),
        note_view(r.section2_msg) == movers_note(
            movers_of(hour_stats(rows@)).len(),
            span_spec(first, last),
        ),
        note_view(r.action_msg) == actions_note(
            r.actions@.len(),
            hour_stats(rows@).len(),
            span_spec(first, last),
        ),
        note_view(r.section3_msg) == candidates_note(
            candidates_of(recent@).len(),
            span_spec(first, last),
        ),
{
    let span: i64 = history_seconds(first, last);
    let stats = compute_stats(rows);
    let movers = top_movers(&stats);
    let actions = list_actions(rows, recent, logs);
    let candidates = list_candidates(recent);
    let section2_msg = if movers.len() == 0 {
        Some(need_hour(span))
    } else {
        None
    };
    let action_msg = note_on_actions(actions.len(), stats.len(), span);
    let section3_msg = note_on_candidates(candidates.len(), span);
    Dashboard { movers, actions, candidates, section2_msg, action_msg, section3_msg }
}

/// What the dashboard shows where the readings could not be had.
pub fn failed_dashboard() -> (r: Dashboard)
    ensures
        r.movers@.len() == 0,
        r.actions@.len() == 0,
        r.candidates@.len() == 0,
        note_view(r.section2_msg) == Some("(no data — DB error)"@),
        note_view(r.action_msg) == Some("(no data — DB error)"@),
        note_view(r.section3_msg) == Some("(no data — DB error)"@),
{
    Dashboard {
        movers: Vec::new(),
        actions: Vec::new(),
        candidates: Vec::new(),
        section2_msg: Some(text("(no data — DB error)")),
        action_msg: Some(text("(no data — DB error)")),
        section3_msg: Some(text("(no data — DB error)")),
    }
}

// The head.

/// Whether the collector is at work.
#[derive(Clone, Copy, Debug, PartialEq, Eq, Structural)]
pub enum Status {
    Collecting,
    /// The last reading is older than two intervals: its age, and the interval, in seconds.
    Stale(i64, i64),
    NoData,
}

/// The age of the last reading fits a machine integer.
pub open spec fn age_fits(last: Option<i64>, now: i64) -> bool {
    last matches Some(ts) ==> i64::MIN <= now - ts <= i64::MAX
}

/// Whether the age of the last reading can be told.
pub fn does_age_fit(last: Option<i64>, now: i64) -> (r: bool)
    ensures
        r == age_fits(last, now),
{
    match last {
        Some(ts) => {
            let d: i128 = now as i128 - ts as i128;
            i64::MIN as i128 <= d && d <= i64::MAX as i128
        },
        None => true,
    }
}

pub open spec fn status_spec(last: Option<i64>, interval: Option<i64>, now: i64) -> Status {
    match last {
        Some(ts) => {
            let every = match interval {
                Some(s) => s,
                None => DEFAULT_CADENCE,
            };
            if now - ts <= 2 * every {
                Status::Collecting
            } else {
                Status::Stale((now - ts) as i64, every)
            }
        },
        None => Status::NoData,
    }
}

/// Whether the collector is at work: its last reading is not older than two intervals.
pub fn status(last: Option<i64>, interval: Option<i64>, now: i64) -> (r: Status)
    requires
        age_fits(last, now),
    ensures
        r == status_spec(last, interval, now),
{
    match last {
        Some(ts) => {
            let every: i64 = match interval {
                Some(s) => s,
                None => DEFAULT_CADENCE,
            };
            let age: i64 = now - ts;
            if age as i128 <= 2 * every as i128 {
                Status::Collecting
            } else {
                Status::Stale(age, every)
            }
        },
        None => Status::NoData,
    }
}

/// The colour and the name of a status.
pub fn status_label(s: Status) -> (r: (Tone, &'static str))
    ensures
        r.0 == (match s {
            Status::Collecting => Tone::Green,
            Status::Stale(_, _) => Tone::Yellow,
            Status::NoData => Tone::Red,
        }),
        r.1@ == (match s {
            Status::Collecting => "● COLLECTING"@,
            Status::Stale(_, _) => "● STALE"@,
            Status::NoData => "● NO DATA"@,
        }),
{
    match s {
        Status::Collecting => (Tone::Green, "● COLLECTING"),
        Status::Stale(_, _) => (Tone::Yellow, "● STALE"),
        Status::NoData => (Tone::Red, "● NO DATA"),
    }
}

/// How the interval between readings is shown: in minutes where they are whole.
pub open spec fn interval_text(interval: Option<i64>) -> Seq<char> {
    match interval {
        Some(s) => if s % 60 == 0 {
            signed_decimal(truncated(s as int, 60)) + "min"@
        } else {
            signed_decimal(s as int) + "s"@
        },
        None => "?"@,
    }
}

fn write_interval(interval: Option<i64>) -> (r: String)
    ensures
        r@ == interval_text(interval),
{
    match interval {
        Some(s) => {
            let mut l = String::new();
            if s % 60 == 0 {
                append_signed(&mut l, s / 60);
                assert(l@ =~= signed_decimal(truncated(s as int, 60)));
                l.append("min");
            } else {
                append_signed(&mut l, s);
                assert(l@ =~= signed_decimal(s as int));
                l.append("s");
            }
            l
        },
        None => text("?"),
    }
}

pub open spec fn score_cell(tier: ConfidenceTier, points: Binary64) -> Seq<char> {
    if tier == ConfidenceTier::Trap {
        "—"@
    } else {
        fixed(points, 0, false)
    }
}

fn write_score(tier: ConfidenceTier, points: Binary64) -> (r: String)
    ensures
        r@ == score_cell(tier, points),
{
    if tier == ConfidenceTier::Trap {
        text("—")
    } else {
        crate::decimal::fixed_text(points, 0)
    }
}

pub open spec fn stale_text(age: int, every: int) -> Seq<char> {
    " (last snapshot "@ + signed_decimal(age as int) + "s ago, expected every "@
        + signed_decimal(every as int) + "s)"@
}

/// How late the last reading is.
pub fn stale(age: i64, every: i64) -> (r: String)
    ensures
        r@ == stale_text(age as int, every as int),
{
    let mut l = text(" (last snapshot ");
    append_signed(&mut l, age);
    l.append("s ago, expected every ");
    append_signed(&mut l, every);
    l.append("s)");
    l
}

/// The last reading, by the text of its time and its age in seconds.
pub open spec fn reading_text(moment: Seq<char>, age: int) -> Seq<char> {
    "Last snapshot: "@ + moment + " ("@ + signed_decimal(age) + "s ago)"@
}

/// The last reading, by the text of its time and its age in seconds.
pub fn reading_line(moment: &str, age: i64) -> (r: String)
    ensures
        r@ == reading_text(moment@, age as int),
{
    let mut l = text("Last snapshot: ");
    l.append(moment);
    l.append(" (");
    append_signed(&mut l, age);
    l.append("s ago)");
    l
}

pub open spec fn last_seen_text(ts: int, age: int) -> Seq<char> {
    reading_text(or_else_text(utc_text(ts, "%Y-%m-%d %H:%M:%S UTC"@), "?"@), age)
}

/// The time of the last reading.
fn last_seen(ts: i64, age: i64) -> (r: String)
    ensures
        r@ == last_seen_text(ts as int, age as int),
{
    reading_line(moment_text(ts).as_str(), age)
}

pub open spec fn coverage_text(span: int) -> Seq<char> {
    "Uptime tracking: "@ + fixed(hours_of(span), 1, false) + "h of data"@
}

/// How many hours the readings cover.
fn coverage(span: i64) -> (r: String)
    ensures
        r@ == coverage_text(span as int),
{
    let mut l = text("Uptime tracking: ");
    append_fixed(&mut l, hours(span), 1, false);
    l.append("h of data");
    l
}

pub open spec fn plain_controls_text(updated: Seq<char>) -> Seq<char> {
    "'q' quit | 'r' refresh | Last update: "@ + updated
}

/// The controls.
fn plain_controls(updated: &str) -> (r: String)
    ensures
        r@ == plain_controls_text(updated@),
{
    let mut l = text("'q' quit | 'r' refresh | Last update: ");
    l.append(updated);
    l
}

pub open spec fn failed_controls_text(error: Seq<char>, updated: Seq<char>) -> Seq<char> {
    "⚠ DB error: "@ + error + " | 'q' quit | 'r' refresh | Last update: "@ + updated
}

/// The controls, behind an error.
fn failed_controls(error: &str, updated: &str) -> (r: String)
    ensures
        r@ == failed_controls_text(error@, updated@),
{
    let mut l = text("⚠ DB error: ");
    l.append(error);
    l.append(" | 'q' quit | 'r' refresh | Last update: ");
    l.append(updated);
    l
}

pub open spec fn mover_cells_text(m: HourStats, asset: Seq<char>) -> Seq<Seq<char>> {
    seq![
        asset,
        fixed(m.apr_now, 2, true) + "%"@,
        fixed(m.avg, 2, true) + "%"@,
        fixed(percent_of_mean(m.avg, m.std), 0, false) + "%"@,
        arrow_of(m.direction),
        usd_text(m.volume_24h),
        receiving_side(m.apr_now),
    ]
}

/// The cells of a mover.
pub fn mover_cells(m: &HourStats, asset: &str) -> (r: Vec<String>)
    ensures
        texts(r@) == mover_cells_text(*m, asset@),
{
    let volume = format_usd(m.volume_24h);
    let mut lines: Vec<String> = Vec::new();
    let l = text(asset);
    lines.push(l);
    let mut l = String::new();
    append_fixed(&mut l, m.apr_now, 2, true);
    assert(l@ =~= fixed(m.apr_now, 2, true));
    l.append("%");
    lines.push(l);
    let mut l = String::new();
    append_fixed(&mut l, m.avg, 2, true);
    assert(l@ =~= fixed(m.avg, 2, true));
    l.append("%");
    lines.push(l);
    let mut l = String::new();
    append_fixed(&mut l, relative_deviation(m.avg, m.std), 0, false);
    assert(l@ =~= fixed(percent_of_mean(m.avg, m.std), 0, false));
    l.append("%");
    lines.push(l);
    let l = text(dir_arrow(m.direction));
    lines.push(l);
    let l = text(volume.as_str());
    lines.push(l);
    let l = text(side_str(m.apr_now));
    lines.push(l);
    assert(texts(lines@) =~= mover_cells_text(*m, asset@));
    lines
}

pub open spec fn candidate_cells_text(c: CandidateRow, asset: Seq<char>) -> Seq<Seq<char>> {
    seq![
        asset,
        fixed(c.avg_apr, 2, true) + "%"@,
        fixed(percent_of_mean(c.avg_apr, c.std_apr), 0, false) + "%"@,
        decimal(c.snap_count as nat),
        receiving_side(c.avg_apr),
        fixed(c.score, 1, false),
    ]
}

/// The cells of a candidate.
pub fn candidate_cells(c: &CandidateRow, asset: &str) -> (r: Vec<String>)
    ensures
        texts(r@) == candidate_cells_text(*c, asset@),
{
    let mut lines: Vec<String> = Vec::new();
    let l = text(asset);
    lines.push(l);
    let mut l = String::new();
    append_fixed(&mut l, c.avg_apr, 2, true);
    assert(l@ =~= fixed(c.avg_apr, 2, true));
    l.append("%");
    lines.push(l);
    let mut l = String::new();
    append_fixed(&mut l, relative_deviation(c.avg_apr, c.std_apr), 0, false);
    assert(l@ =~= fixed(percent_of_mean(c.avg_apr, c.std_apr), 0, false));
    l.append("%");
    lines.push(l);
    let mut l = String::new();
    append_decimal(&mut l, c.snap_count as u128);
    assert(l@ =~= decimal(c.snap_count as nat));
    lines.push(l);
    let l = text(side_str(c.avg_apr));
    lines.push(l);
    let mut l = String::new();
    append_fixed(&mut l, c.score, 1, false);
    assert(l@ =~= fixed(c.score, 1, false));
    lines.push(l);
    assert(texts(lines@) =~= candidate_cells_text(*c, asset@));
    lines
}

pub open spec fn action_cells_text(a: ActionView) -> Seq<Seq<char>> {
    seq![
        a.asset,
        a.action,
        score_cell(a.tier, a.score),
        confidence_label(a.tier),
        size_range(a.tier),
        a.risks,
    ]
}

/// The cells of an action; a trap has no score.
pub fn action_cells(a: &ActionRow) -> (r: Vec<String>)
    ensures
        texts(r@) == action_cells_text(action_view(*a)),
{
    let points = write_score(a.tier, a.score);
    let mut lines: Vec<String> = Vec::new();
    let l = text(a.asset.as_str());
    lines.push(l);
    let l = text(a.action.as_str());
    lines.push(l);
    let l = text(points.as_str());
    lines.push(l);
    let l = text(tier_label(a.tier));
    lines.push(l);
    let l = text(tier_size(a.tier));
    lines.push(l);
    let l = text(a.risks.as_str());
    lines.push(l);
    assert(texts(lines@) =~= action_cells_text(action_view(*a)));
    lines
}

/// The last reading, with its age.
pub open spec fn last_snapshot_text(last: Option<i64>, now: int) -> Seq<char> {
    match last {
        Some(ts) => last_seen_text(ts as int, now - ts),
        None => "Last snapshot: none"@,
    }
}

/// The time that the readings cover.
pub open spec fn uptime_text(first: Option<i64>, last: Option<i64>) -> Seq<char> {
    match (first, last) {
        (Some(f), Some(l)) => coverage_text(l - f),
        _ => "Uptime tracking: -"@,
    }
}

/// The lines of the head below the status.
pub open spec fn head_text(
    db_size: nat,
    total: int,
    first: Option<i64>,
    last: Option<i64>,
    perps: int,
    interval: Option<i64>,
    now: int,
) -> Seq<Seq<char>> {
    seq![
        "DB: ./data/snapshots.db ("@ + bytes_text(db_size) + ")"@,
        "Total snapshots: "@ + signed_decimal(total),
        last_snapshot_text(last, now),
        "Snapshot rate: "@ + signed_decimal(perps) + " perps / "@ + interval_text(interval),
        uptime_text(first, last),
    ]
}

/// The lines of the head below the status.
pub fn head_lines(
    db_size: u64,
    total: i64,
    first: Option<i64>,
    last: Option<i64>,
    perps: i64,
    interval: Option<i64>,
    now: i64,
) -> (r: Vec<String>)
    requires
        age_fits(last, now),
        span_fits(first, last),
    ensures
        texts(r@) == head_text(
            db_size as nat,
            total as int,
            first,
            last,
            perps as int,
            interval,
            now as int,
        ),
{
    let mut lines: Vec<String> = Vec::new();
    let size = format_bytes(db_size);
    let mut l = text("DB: ./data/snapshots.db (");
    l.append(size.as_str());
    l.append(")");
    lines.push(l);
    let mut l = text("Total snapshots: ");
    append_signed(&mut l, total);
    lines.push(l);
    lines.push(
        match last {
            Some(ts) => last_seen(ts, now - ts),
            None => text("Last snapshot: none"),
        },
    );
    let every = write_interval(interval);
    let mut l = text("Snapshot rate: ");
    append_signed(&mut l, perps);
    l.append(" perps / ");
    l.append(every.as_str());
    lines.push(l);
    lines.push(
        match (first, last) {
            (Some(f), Some(t)) => coverage(t - f),
            _ => text("Uptime tracking: -"),
        },
    );
    assert(texts(lines@) =~= head_text(
        db_size as nat,
        total as int,
        first,
        last,
        perps as int,
        interval,
        now as int,
    ));
    lines
}

/// The controls, with the error of the last attempt to read, if there was one.
pub open spec fn controls_text(error: Option<Seq<char>>, updated: Seq<char>) -> Seq<char> {
    match error {
        Some(e) => failed_controls_text(e, updated),
        None => plain_controls_text(updated),
    }
}

/// The controls.
pub fn controls(error: &Option<String>, updated: &str) -> (r: String)
    ensures
        r@ == controls_text(note_view(*error), updated@),
{
    match error {
        Some(e) => failed_controls(e.as_str(), updated),
        None => plain_controls(updated),
    }
}

// The keys.

/// What a key does.
#[derive(Clone, Copy, Debug, PartialEq, Eq, Structural)]
pub enum KeyAction {
    Quit,
    Refresh,
    /// The key was let go, not pressed: draw again at once.
    Skip,
    Nothing,
}

pub open spec fn key_spec(pressed: bool, key: Option<char>, control: bool) -> KeyAction {
    if !pressed {
        KeyAction::Skip
    } else if key == Some('q') || (key == Some('c') && control) {
        KeyAction::Quit
    } else if key == Some('r') {
        KeyAction::Refresh
    } else {
        KeyAction::Nothing
    }
}

/// What a key does: `q` and Ctrl+C quit, `r` refreshes.
pub fn on_key(pressed: bool, key: Option<char>, control: bool) -> (r: KeyAction)
    ensures
        r == key_spec(pressed, key, control),
{
    if !pressed {
        return KeyAction::Skip;
    }
    match key {
        Some(c) => if c == 'q' || (c == 'c' && control) {
            KeyAction::Quit
        } else if c == 'r' {
            KeyAction::Refresh
        } else {
            KeyAction::Nothing
        },
        None => KeyAction::Nothing,
    }
}

/// Whether the dashboard is to be brought up to date.
pub fn refresh_due(elapsed_ms: u64) -> (r: bool)
    ensures
        r == (elapsed_ms >= REFRESH_MS),
{
    elapsed_ms >= REFRESH_MS
}

} // verus!
