//! What holds of the assets that a scan, a query for lasting rates and an hour of readings bring
//! up, in terms of what was asked for and what the exchange said.

use crate::accuracy::{
    lemma_moderate, lemma_moderate_whole, lemma_near_exact, lemma_then_over_whole,
    lemma_then_times_fraction, lemma_then_times_whole, moderate, near, one,
};
use crate::arithmetic::multiplication_commutes;
use crate::binary64::{lemma_key_order, Binary64, HIDDEN};
use crate::figure_laws::{a_year_has_8760_hours, lemma_nearest_expanded};
use crate::grouping::distinct;
use crate::messages::daily_yield;
use crate::monotony::{
    division_keeps_the_order, lemma_subtraction_turns_the_order, lemma_whole,
    lemma_wholes_in_order, multiplication_keeps_the_order,
};
use crate::scan::{
    min_count_spec, persistent_spec, persists, row_spec, rows_until, std_of, AssetCtx, AssetMeta,
    PersistentRow, ScanRow,
};
use crate::signals::{
    assets_of, places_of, rates_at, signal_spec, stats_until, HourStats, Reading,
};
use crate::stats::{spread_spec, volume_ratio_spec};
use crate::watch::{candidate_at, hours_of, CandidateRow};
use vstd::prelude::*;

verus! {

// Rates that last.

/// An asset is listed if and only if it is among the rows and lasts.
proof fn lemma_listed(rows: Seq<PersistentRow>, min_count: int, min_apr: Binary64, r: PersistentRow)
    ensures
        persistent_spec(rows, min_count, min_apr).contains(r) <==> rows.contains(r) && persists(
            r,
            min_count,
            min_apr,
        ),
    decreases rows.len(),
{
    if rows.len() > 0 {
        let rest = rows.drop_last();
        let last = rows.len() - 1;
        lemma_listed(rest, min_count, min_apr, r);
        let before = persistent_spec(rest, min_count, min_apr);
        let now = persistent_spec(rows, min_count, min_apr);
        if rows.contains(r) {
            let k = choose|k: int| 0 <= k < rows.len() && rows[k] == r;
            if k < last {
                assert(rest[k] == r);
            }
        }
        if rest.contains(r) {
            let k = choose|k: int| 0 <= k < rest.len() && rest[k] == r;
            assert(rows[k] == r);
        }
        if before.contains(r) {
            let k = choose|k: int| 0 <= k < before.len() && before[k] == r;
            assert(now[k] == r);
        }
        if now.contains(r) && !before.contains(r) {
            let k = choose|k: int| 0 <= k < now.len() && now[k] == r;
            if k < before.len() {
                assert(before[k] == r);
            }
            assert(rows[last] == r);
        }
        if rows.last() == r && persists(r, min_count, min_apr) {
            assert(now[now.len() - 1] == r);
            assert(rows[last] == r);
        }
    }
}

/// No asset is listed whose mean rate either way is below the one that was asked for; and of the
/// assets that are listed when no rate is asked for, every other one is.
pub proof fn the_asked_rate_decides(
    rows: Seq<PersistentRow>,
    hours: nat,
    min_apr: Binary64,
    r: PersistentRow,
)
    ensures
        persistent_spec(rows, min_count_spec(hours) as int, min_apr).contains(r) <==> {
            &&& persistent_spec(
                rows,
                min_count_spec(hours) as int,
                Binary64::whole(0),
            ).contains(r)
            &&& !r.avg_apr.abs_spec().less(min_apr)
        },
{
    let n = min_count_spec(hours) as int;
    lemma_listed(rows, n, min_apr, r);
    lemma_listed(rows, n, Binary64::whole(0), r);
    crate::monotony::lemma_whole(0);
    let size = r.avg_apr.abs_spec();
    assert(!size.less(Binary64::whole(0))) by {
        lemma_key_order(size, Binary64::whole(0));
        assert(0 * vstd::arithmetic::power2::pow2(crate::arithmetic::UNIT_EXPONENT as nat) == 0)
            by (nonlinear_arith);
    }
}

/// Every asset that is listed has sixty percent of the readings of the window, one each five
/// minutes, at least; its mean rate is not below the asked one; its deviation is below 30 percent
/// of that, up to rounding; and its volume is not below a million dollars.
pub proof fn listed_assets_last(
    rows: Seq<PersistentRow>,
    hours: nat,
    min_apr: Binary64,
    r: PersistentRow,
)
    requires
        persistent_spec(rows, min_count_spec(hours) as int, min_apr).contains(r),
    ensures
        rows.contains(r),
        10 * r.snap_count >= 6 * (12 * hours),
        !r.avg_apr.abs_spec().less(min_apr),
        !r.day_volume_usd.below(1_000_000),
        moderate(r.avg_apr.abs_spec(), 500) && !std_of(r).nan() ==> 10 * std_of(r).units() * (HIDDEN
            - 2) < 3 * r.avg_apr.abs_spec().units() * HIDDEN,
{
    lemma_listed(rows, min_count_spec(hours) as int, min_apr, r);
    let size = r.avg_apr.abs_spec();
    if moderate(size, 500) && !std_of(r).nan() {
        lemma_third(size);
        let x = size.times_spec(Binary64::ratio(3, 10));
        let s = std_of(r).units();
        let h = HIDDEN as int;
        assert(s < x.units());
        assert(10 * s * (h - 2) < x.units() * 10 * (h - 2)) by (nonlinear_arith)
            requires
                s < x.units(),
                h > 2,
        ;
        assert(size.units() * 3 * h == 3 * size.units() * h) by (nonlinear_arith);
    }
}

proof fn lemma_third(size: Binary64)
    requires
        moderate(size, 500),
    ensures
        near(
            size.times_spec(Binary64::ratio(3, 10)).units(),
            size.units() * 3,
            10,
            2,
        ),
        size.times_spec(Binary64::ratio(3, 10)).finite(),
{
    lemma_moderate(size, 500);
    lemma_near_exact(size.units());
    lemma_then_times_fraction(size, size.units(), 1, 0, 500, 3, 10);
}

/// Every asset with enough readings, a mean rate that is not below the asked one, a deviation that
/// is clearly below 30 percent of it, and enough volume is listed.
pub proof fn lasting_assets_are_listed(
    rows: Seq<PersistentRow>,
    hours: nat,
    min_apr: Binary64,
    r: PersistentRow,
)
    requires
        rows.contains(r),
        10 * r.snap_count >= 6 * (12 * hours),
        !r.avg_apr.abs_spec().less(min_apr),
        !r.day_volume_usd.below(1_000_000),
        moderate(r.avg_apr.abs_spec(), 500),
        10 * std_of(r).units() * HIDDEN < 3 * r.avg_apr.abs_spec().units() * (HIDDEN - 2),
    ensures
        persistent_spec(rows, min_count_spec(hours) as int, min_apr).contains(r),
{
    lemma_listed(rows, min_count_spec(hours) as int, min_apr, r);
    let size = r.avg_apr.abs_spec();
    lemma_third(size);
    let x = size.times_spec(Binary64::ratio(3, 10));
    let s = std_of(r).units();
    let h = HIDDEN as int;
    assert(size.units() * 3 * (h - 2) == 3 * size.units() * (h - 2)) by (nonlinear_arith);
    assert(s < x.units()) by (nonlinear_arith)
        requires
            10 * s * h < x.units() * 10 * h,
            h > 0,
    ;
}

// The scan.

/// A listed asset with all its figures and a volume above a hundred thousand dollars has a row, and
/// no other asset has: its price, its leverage, its rate and its volume are those of the exchange.
pub proof fn liquid_assets_have_a_row(place: int, meta: AssetMeta, ctx: AssetCtx)
    requires
        0 <= place <= usize::MAX,
    ensures
        row_spec(place, meta, ctx) is Some <==> {
            &&& !meta.delisted
            &&& ctx.funding is Some
            &&& ctx.open_interest is Some
            &&& ctx.mark_px is Some
            &&& ctx.day_ntl_vlm is Some
            &&& ctx.day_ntl_vlm->0.above(100_000)
        },
        row_spec(place, meta, ctx) matches Some(r) ==> {
            &&& r.place == place
            &&& r.max_leverage == meta.max_leverage
            &&& Some(r.mark_px) == ctx.mark_px
            &&& Some(r.funding_hourly) == ctx.funding
            &&& Some(r.day_volume_usd) == ctx.day_ntl_vlm
        },
{
}

/// The yearly rate of a row is its hourly one for 8760 hours in percent, and its open interest is
/// the number of contracts at the price of the asset.
pub proof fn rows_are_in_percent_and_dollars(
    place: int,
    meta: AssetMeta,
    ctx: AssetCtx,
    row: ScanRow,
)
    requires
        row_spec(place, meta, ctx) == Some(row),
        moderate(ctx.funding->0.abs_spec(), 500),
        moderate(ctx.open_interest->0, 500),
        moderate(ctx.mark_px->0, 500),
    ensures
        near(
            row.funding_apr.abs_spec().units(),
            ctx.funding->0.abs_spec().units() * 876_000,
            1,
            3,
        ),
        row.funding_apr.sign() == ctx.funding->0.sign(),
        near(
            row.open_interest_usd.units(),
            ctx.open_interest->0.units() * ctx.mark_px->0.units(),
            one(),
            1,
        ),
{
    a_year_has_8760_hours(ctx.funding->0);
    let x = ctx.open_interest->0;
    let y = ctx.mark_px->0;
    crate::accuracy::lemma_times(x, y, 500, 500);
}

/// Every asset that is to have a row has it in the scan, and every row of the scan is one.
pub proof fn every_liquid_asset_is_scanned(metas: Seq<AssetMeta>, ctxs: Seq<AssetCtx>, n: nat)
    requires
        n <= metas.len() == ctxs.len(),
    ensures
        forall|k: int|
            0 <= k < n && row_spec(k, #[trigger] metas[k], ctxs[k]) is Some ==> rows_until(
                metas,
                ctxs,
                n,
            ).contains(row_spec(k, metas[k], ctxs[k])->0),
        forall|i: int|
            0 <= i < rows_until(metas, ctxs, n).len() ==> exists|k: int|
                0 <= k < n && row_spec(k, #[trigger] metas[k], ctxs[k]) == Some(
                    #[trigger] rows_until(metas, ctxs, n)[i],
                ),
    decreases n,
{
    if n > 0 {
        let m = (n - 1) as nat;
        every_liquid_asset_is_scanned(metas, ctxs, m);
        let before = rows_until(metas, ctxs, m);
        let now = rows_until(metas, ctxs, n);
        assert forall|k: int|
            0 <= k < n && row_spec(k, #[trigger] metas[k], ctxs[k]) is Some implies now.contains(
            row_spec(k, metas[k], ctxs[k])->0,
        ) by {
            let r = row_spec(k, metas[k], ctxs[k])->0;
            if k < m {
                assert(before.contains(r));
                let j = choose|j: int| 0 <= j < before.len() && before[j] == r;
                assert(now[j] == r);
            } else {
                assert(now[now.len() - 1] == r);
            }
        }
        assert forall|i: int| 0 <= i < now.len() implies exists|k: int|
            0 <= k < n && row_spec(k, #[trigger] metas[k], ctxs[k]) == Some(#[trigger] now[i]) by {
            if i < before.len() {
                assert(now[i] == before[i]);
                let k = choose|k: int|
                    0 <= k < m && row_spec(k, #[trigger] metas[k], ctxs[k]) == Some(before[i]);
                assert(row_spec(k, metas[k], ctxs[k]) == Some(now[i]));
            } else {
                assert(row_spec(m as int, metas[m as int], ctxs[m as int]) == Some(now[i]));
            }
        }
    }
}

// Readings.

/// The statistics of an asset are those of its own readings, eight of them at least, and its rate
/// and its volume are those of the newest one; every asset with eight readings has statistics.
pub proof fn assets_with_eight_readings_have_statistics(rows: Seq<Reading>, n: nat)
    requires
        n <= distinct(assets_of(rows)).len() <= usize::MAX,
    ensures
        forall|k: int|
            0 <= k < stats_until(rows, n).len() ==> {
                let s = #[trigger] stats_until(rows, n)[k];
                let places = places_of(rows, s.group as int);
                &&& s.group < n
                &&& places.len() >= 8
                &&& s.newest == places[0]
                &&& s.apr_now == rows[places[0] as int].apr
                &&& s.volume_24h == rows[places[0] as int].volume
            },
        forall|g: int|
            0 <= g < n && (#[trigger] places_of(rows, g)).len() >= 8 ==> exists|k: int|
                0 <= k < stats_until(rows, n).len() && (
                #[trigger] stats_until(rows, n)[k]).group == g,
    decreases n,
{
    if n > 0 {
        let m = (n - 1) as nat;
        assets_with_eight_readings_have_statistics(rows, m);
        let before = stats_until(rows, m);
        let now = stats_until(rows, n);
        assert forall|k: int| 0 <= k < now.len() implies {
            let s = #[trigger] now[k];
            let places = places_of(rows, s.group as int);
            &&& s.group < n
            &&& places.len() >= 8
            &&& s.newest == places[0]
            &&& s.apr_now == rows[places[0] as int].apr
            &&& s.volume_24h == rows[places[0] as int].volume
        } by {
            if k < before.len() {
                assert(now[k] == before[k]);
            }
        }
        assert forall|g: int|
            0 <= g < n && (#[trigger] places_of(rows, g)).len() >= 8 implies exists|k: int|
            0 <= k < now.len() && (#[trigger] now[k]).group == g by {
            if g < m {
                let k = choose|k: int|
                    0 <= k < before.len() && (#[trigger] before[k]).group == g;
                assert(now[k] == before[k]);
            } else {
                assert(now[now.len() - 1].group == g);
            }
        }
    }
}

/// The hours of readings behind a signal: their number times the time between two, over 3600.
pub proof fn the_history_of_a_signal_is_in_hours(
    s: HourStats,
    count_6h: nat,
    cadence: int,
    logs: Seq<Binary64>,
)
    requires
        1 <= count_6h < 2 * HIDDEN,
        1 <= cadence < 2 * HIDDEN,
    ensures
        signal_spec(s, count_6h, cadence, logs) matches Some(d) ==> near(
            d.history_h.units(),
            count_6h * one() * cadence,
            3600,
            2,
        ),
{
    lemma_moderate_whole(count_6h as int);
    let x = Binary64::whole(count_6h as int);
    lemma_moderate(x, 53);
    lemma_near_exact(x.units());
    lemma_then_times_whole(x, count_6h * one(), 1, 0, 53, cadence);
    lemma_then_over_whole(
        x.times_spec(Binary64::whole(cadence)),
        count_6h * one() * cadence,
        1,
        1,
        106,
        3600,
    );
}

/// A signal carries the rate, the deviation and the volume of its asset's hour.
pub proof fn signals_carry_their_figures(
    s: HourStats,
    count_6h: nat,
    cadence: int,
    logs: Seq<Binary64>,
)
    ensures
        signal_spec(s, count_6h, cadence, logs) matches Some(d) ==> {
            &&& d.apr_now == s.apr_now
            &&& d.std_pct == s.std_pct
            &&& d.volume_24h == s.volume_24h
        },
{
}

/// A hundred dollars earn in a day the 365th part of the yearly rate, in dollars.
pub proof fn a_day_earns_the_365th_part(apr: Binary64)
    requires
        moderate(apr.abs_spec(), 500),
    ensures
        near(daily_yield(apr).units(), apr.abs_spec().units(), 365, 1),
{
    let size = apr.abs_spec();
    lemma_moderate(size, 500);
    lemma_near_exact(size.units());
    lemma_then_over_whole(size, size.units(), 1, 0, 500, 365);
}

/// An hour has 3600 seconds.
pub proof fn an_hour_has_3600_seconds(seconds: int)
    requires
        1 <= seconds < 2 * HIDDEN,
    ensures
        near(hours_of(seconds).units(), seconds * one(), 3600, 1),
{
    lemma_moderate_whole(seconds);
    let x = Binary64::whole(seconds);
    lemma_moderate(x, 53);
    lemma_near_exact(x.units());
    lemma_then_over_whole(x, seconds * one(), 1, 0, 53, 3600);
}

/// The liquidity of an asset is its volume in units of a hundred thousand dollars, and one where
/// that is less.
pub proof fn liquidity_is_counted_in_hundred_thousands(volume: Binary64)
    requires
        moderate(volume, 500),
    ensures
        ({
            let part = volume.over_spec(Binary64::whole(100_000));
            &&& near(part.units(), volume.units(), 100_000, 1)
            &&& volume_ratio_spec(volume).reaches(1)
            &&& part.reaches(1) ==> volume_ratio_spec(volume).units() == part.units()
            &&& !part.reaches(1) ==> volume_ratio_spec(volume) == Binary64::whole(1)
        }),
{
    lemma_moderate(volume, 500);
    lemma_near_exact(volume.units());
    lemma_then_over_whole(volume, volume.units(), 1, 0, 500, 100_000);
    crate::monotony::lemma_whole(1);
}

/// An asset is a candidate if and only if it has 43 readings at least, its mean rate either way is
/// not below 30 percent, its deviation is below half of that, and the volume of its newest reading
/// is not below a million dollars.
pub proof fn candidates_are_high_steady_and_liquid(rows: Seq<Reading>, places: Seq<usize>)
    requires
        places.len() <= usize::MAX,
    ensures
        ({
            let s = spread_spec(rates_at(rows, places));
            let size = s.avg.abs_spec();
            let c = candidate_at(rows, places);
            &&& c is Some <==> {
                &&& places.len() >= 43
                &&& !size.below(30)
                &&& !size.times_spec(Binary64::ratio(1, 2)).at_most(s.std)
                &&& !rows[places[0] as int].volume.below(1_000_000)
            }
            &&& c matches Some(c) ==> {
                &&& c.newest == places[0]
                &&& c.avg_apr == s.avg
                &&& c.std_apr == s.std
                &&& c.snap_count == places.len()
            }
        }),
{
    lemma_halves_agree();
}

/// Five tenths are one half.
proof fn lemma_halves_agree()
    ensures
        Binary64::ratio(1, 2) == Binary64::ratio(5, 10),
{
    reveal(Binary64::over_spec);
    lemma_moderate_whole(1);
    lemma_moderate_whole(2);
    lemma_moderate_whole(5);
    lemma_moderate_whole(10);
    lemma_moderate(Binary64::whole(1), 53);
    lemma_moderate(Binary64::whole(2), 53);
    lemma_moderate(Binary64::whole(5), 53);
    lemma_moderate(Binary64::whole(10), 53);
    let p = one() as nat;
    assert((5 * p) * p == ((1 * p) * p) * 5 && 10 * p == (2 * p) * 5) by (nonlinear_arith);
    lemma_nearest_expanded((1 * p) * p, 2 * p, 5);
}

/// Of two candidates of one mean rate, the steadier one never scores less.
pub proof fn steadier_candidates_never_score_less(
    rows: Seq<Reading>,
    places: Seq<usize>,
    other_rows: Seq<Reading>,
    other_places: Seq<usize>,
    a: CandidateRow,
    b: CandidateRow,
)
    requires
        candidate_at(rows, places) == Some(a),
        candidate_at(other_rows, other_places) == Some(b),
        a.avg_apr == b.avg_apr,
        a.avg_apr.finite(),
        a.std_apr.at_most(b.std_apr),
    ensures
        b.score.at_most(a.score),
{
    let size = a.avg_apr.abs_spec();
    let unit = Binary64::whole(1);
    lemma_whole(1);
    lemma_whole(0);
    lemma_whole(30);
    lemma_wholes_in_order(0, 30);
    assert(size.reaches(30));
    assert(size.above(0));
    division_keeps_the_order(a.std_apr, b.std_apr, size);
    lemma_subtraction_turns_the_order(
        a.std_apr.over_spec(size),
        b.std_apr.over_spec(size),
        unit,
    );
    multiplication_keeps_the_order(
        unit.minus_spec(b.std_apr.over_spec(size)),
        unit.minus_spec(a.std_apr.over_spec(size)),
        size,
    );
    multiplication_commutes(unit.minus_spec(b.std_apr.over_spec(size)), size);
    multiplication_commutes(unit.minus_spec(a.std_apr.over_spec(size)), size);
}

} // verus!
