//! The messages of the alert monitor.

use crate::alerts::{AlertEvent, AlertKind, EventView};
use crate::binary64::Binary64;
use crate::decimal::{append_decimal, append_fixed, decimal, fixed, text};
use crate::signals::{Signal, SignalData};
use crate::tier::{label_spec, tier_label, Tier};
use crate::util::{format_usd, usd_text};
use vstd::prelude::*;
use vstd::string::*;

verus! {

/// How many signals are of each tier.
#[derive(Clone, Copy, Debug, PartialEq, Eq, Structural)]
pub struct TierCounts {
    pub strong: usize,
    pub medium: usize,
    pub early: usize,
    pub weak: usize,
}

/// How many signals are of a tier.
pub open spec fn with_tier(signals: Seq<Signal>, t: Tier) -> nat
    decreases signals.len(),
{
    if signals.len() == 0 {
        0
    } else {
        with_tier(signals.drop_last(), t) + (if signals.last().data.tier == t {
            1nat
        } else {
            0
        })
    }
}

/// How many signals are of each tier.
pub fn count_tiers(signals: &Vec<Signal>) -> (r: TierCounts)
    ensures
        r.strong == with_tier(signals@, Tier::Strong),
        r.medium == with_tier(signals@, Tier::Medium),
        r.early == with_tier(signals@, Tier::Early),
        r.weak == with_tier(signals@, Tier::Weak),
        r.strong + r.medium + r.early + r.weak == signals@.len(),
{
    let mut strong: usize = 0;
    let mut medium: usize = 0;
    let mut early: usize = 0;
    let mut weak: usize = 0;
    let n: usize = signals.len();
    let mut i: usize = 0;
    while i < n
        invariant
            n == signals@.len(),
            i <= n,
            strong == with_tier(signals@.take(i as int), Tier::Strong),
            medium == with_tier(signals@.take(i as int), Tier::Medium),
            early == with_tier(signals@.take(i as int), Tier::Early),
            weak == with_tier(signals@.take(i as int), Tier::Weak),
            strong + medium + early + weak == i,
        decreases n - i,
    {
        assert(signals@.take(i + 1).drop_last() =~= signals@.take(i as int));
        match signals[i].data.tier {
            Tier::Strong => {
                strong = strong + 1;
            },
            Tier::Medium => {
                medium = medium + 1;
            },
            Tier::Early => {
                early = early + 1;
            },
            Tier::Weak => {
                weak = weak + 1;
            },
        }
        i = i + 1;
    }
    assert(signals@.take(n as int) =~= signals@);
    TierCounts { strong, medium, early, weak }
}

pub open spec fn kind_text(k: AlertKind) -> Seq<char> {
    match k {
        AlertKind::NewSignal => "NEW"@,
        AlertKind::TierUp => "UP"@,
        AlertKind::TierDown => "DOWN"@,
        AlertKind::SignalLost => "LOST"@,
    }
}

/// The name of a kind of event.
pub fn event_kind_str(k: &AlertKind) -> (r: &'static str)
    ensures
        r@ == kind_text(*k),
{
    match k {
        AlertKind::NewSignal => "NEW",
        AlertKind::TierUp => "UP",
        AlertKind::TierDown => "DOWN",
        AlertKind::SignalLost => "LOST",
    }
}

pub open spec fn size_text(t: Tier) -> Seq<char> {
    match t {
        Tier::Strong => "15-20%"@,
        Tier::Medium => "8-12%"@,
        Tier::Early => "3-5%"@,
        Tier::Weak => "1-2%"@,
    }
}

/// The part of the capital that is recommended for a tier.
pub fn tier_size_pct(t: Tier) -> (r: &'static str)
    ensures
        r@ == size_text(t),
{
    match t {
        Tier::Strong => "15-20%",
        Tier::Medium => "8-12%",
        Tier::Early => "3-5%",
        Tier::Weak => "1-2%",
    }
}

/// The side that receives the funding.
pub open spec fn side_of(apr: Binary64) -> Seq<char> {
    if apr.below(0) {
        "LONG"@
    } else {
        "SHORT"@
    }
}

/// The side that receives the funding.
pub fn side_label(apr: Binary64) -> (r: &'static str)
    ensures
        r@ == side_of(apr),
{
    if apr.is_below(0) {
        "LONG"
    } else {
        "SHORT"
    }
}

/// What a hundred dollars earn in a day: `|apr| / 365`.
pub open spec fn daily_yield(apr: Binary64) -> Binary64 {
    apr.abs_spec().over_spec(Binary64::whole(365))
}

/// What a hundred dollars earn in a day.
pub fn yield_of(apr: Binary64) -> (r: Binary64)
    ensures
        r == daily_yield(apr),
{
    apr.abs().over(Binary64::from_whole(365))
}

pub open spec fn event_view(e: AlertEvent) -> EventView {
    EventView { asset: e.asset@, kind: e.kind, signal: e.signal, prev_tier: e.prev_tier }
}

pub open spec fn tier_in(signal: Option<SignalData>) -> Option<Tier> {
    match signal {
        Some(d) => Some(d.tier),
        None => None,
    }
}

/// A tier in a log.
pub open spec fn tier_note(t: Option<Tier>) -> Seq<char> {
    match t {
        Some(t) => "Some(\""@ + label_spec(t) + "\")"@,
        None => "None"@,
    }
}

fn tier_note_text(t: Option<Tier>) -> (r: String)
    ensures
        r@ == tier_note(t),
{
    match t {
        Some(t) => {
            let mut l = text("Some(\"");
            l.append(tier_label(t));
            l.append("\")");
            l
        },
        None => text("None"),
    }
}

/// The first line of a message.
pub open spec fn header_text(e: EventView) -> Seq<char> {
    match (e.kind, e.prev_tier, e.signal) {
        (AlertKind::NewSignal, _, Some(d)) => "🆕 NEW "@ + label_spec(d.tier) + " SIGNAL"@,
        (AlertKind::TierUp, Some(prev), Some(d)) => "📈 TIER UP: "@ + label_spec(prev) + " → "@
            + label_spec(d.tier),
        (AlertKind::TierDown, Some(prev), Some(d)) => "📉 TIER DOWN: "@ + label_spec(prev)
            + " → "@ + label_spec(d.tier),
        (AlertKind::SignalLost, Some(prev), _) => "❌ SIGNAL LOST (was "@ + label_spec(prev)
            + ")"@,
        _ => "ALERT"@,
    }
}

fn header(e: &AlertEvent) -> (r: String)
    ensures
        r@ == header_text(event_view(*e)),
{
    match (e.kind, e.prev_tier, e.signal) {
        (AlertKind::NewSignal, _, Some(d)) => {
            let mut l = text("🆕 NEW ");
            l.append(tier_label(d.tier));
            l.append(" SIGNAL");
            l
        },
        (AlertKind::TierUp, Some(prev), Some(d)) => {
            let mut l = text("📈 TIER UP: ");
            l.append(tier_label(prev));
            l.append(" → ");
            l.append(tier_label(d.tier));
            l
        },
        (AlertKind::TierDown, Some(prev), Some(d)) => {
            let mut l = text("📉 TIER DOWN: ");
            l.append(tier_label(prev));
            l.append(" → ");
            l.append(tier_label(d.tier));
            l
        },
        (AlertKind::SignalLost, Some(prev), _) => {
            let mut l = text("❌ SIGNAL LOST (was ");
            l.append(tier_label(prev));
            l.append(")");
            l
        },
        _ => text("ALERT"),
    }
}

pub open spec fn startup_note_text(assets: nat, c: TierCounts) -> Seq<char> {
    "🟢 Alert monitor started, tracking "@ + decimal(assets as nat)
        + " assets, current tiers: STRONG="@ + decimal(c.strong as nat) + ", MEDIUM="@
        + decimal(c.medium as nat) + ", EARLY="@ + decimal(c.early as nat)
}

/// What is sent when the monitor starts.
pub fn startup_note(assets: usize, c: &TierCounts) -> (r: String)
    ensures
        r@ == startup_note_text(assets as nat, *c),
{
    let mut l = text("🟢 Alert monitor started, tracking ");
    append_decimal(&mut l, assets as u128);
    l.append(" assets, current tiers: STRONG=");
    append_decimal(&mut l, c.strong as u128);
    l.append(", MEDIUM=");
    append_decimal(&mut l, c.medium as u128);
    l.append(", EARLY=");
    append_decimal(&mut l, c.early as u128);
    l
}

pub open spec fn tick_note_text(assets: nat, c: TierCounts) -> Seq<char> {
    "tick: "@ + decimal(assets as nat) + " signals (S="@ + decimal(c.strong as nat) + ", M="@
        + decimal(c.medium as nat) + ", E="@ + decimal(c.early as nat) + ", W="@
        + decimal(c.weak as nat) + ")"@
}

/// What is logged at every look at the signals.
pub fn tick_note(assets: usize, c: &TierCounts) -> (r: String)
    ensures
        r@ == tick_note_text(assets as nat, *c),
{
    let mut l = text("tick: ");
    append_decimal(&mut l, assets as u128);
    l.append(" signals (S=");
    append_decimal(&mut l, c.strong as u128);
    l.append(", M=");
    append_decimal(&mut l, c.medium as u128);
    l.append(", E=");
    append_decimal(&mut l, c.early as u128);
    l.append(", W=");
    append_decimal(&mut l, c.weak as u128);
    l.append(")");
    l
}

pub open spec fn mute_note_text(asset: Seq<char>, changes: nat) -> Seq<char> {
    "Muted "@ + asset + " due to instability ("@ + decimal(changes as nat)
        + " changes in last 10min)"@
}

/// What is logged when an asset is muted.
pub fn mute_note(asset: &str, changes: usize) -> (r: String)
    ensures
        r@ == mute_note_text(asset@, changes as nat),
{
    let mut l = text("Muted ");
    l.append(asset);
    l.append(" due to instability (");
    append_decimal(&mut l, changes as u128);
    l.append(" changes in last 10min)");
    l
}

pub open spec fn alert_note_text(e: EventView) -> Seq<char> {
    "alert "@ + kind_text(e.kind) + ": "@ + e.asset + " (prev="@ + tier_note(e.prev_tier)
        + ", new="@ + tier_note(tier_in(e.signal)) + ")"@
}

/// What is logged when a message is sent.
pub fn alert_note(e: &AlertEvent) -> (r: String)
    ensures
        r@ == alert_note_text(event_view(*e)),
{
    let prev = tier_note_text(e.prev_tier);
    let new = tier_note_text(
        match e.signal {
            Some(d) => Some(d.tier),
            None => None,
        },
    );
    let mut l = text("alert ");
    l.append(event_kind_str(&e.kind));
    l.append(": ");
    l.append(e.asset.as_str());
    l.append(" (prev=");
    l.append(prev.as_str());
    l.append(", new=");
    l.append(new.as_str());
    l.append(")");
    l
}

pub open spec fn signal_message_text(header: Seq<char>, asset: Seq<char>, d: SignalData) -> Seq<char> {
    header + "\nAsset: "@ + asset + "\nAction: "@ + side_of(d.apr_now) + " to earn $"@
        + fixed(daily_yield(d.apr_now), 2, false) + "/day per $100\nScore: "@
        + fixed(d.score, 0, false) + "/100\nConfidence: "@ + label_spec(d.tier) + " ("@
        + fixed(d.history_h, 1, false) + "h data, std "@ + fixed(d.std_pct, 0, false)
        + "%)\nVolume 24h: "@ + usd_text(d.volume_24h) + "\nRecommended size: "@
        + size_text(d.tier) + " of capital\n\n⚠️ Educational signal only. Verify before trading."@
}

/// The message on a signal that there is.
fn signal_message(header: &str, asset: &str, d: &SignalData) -> (r: String)
    ensures
        r@ == signal_message_text(header@, asset@, *d),
{
    let volume = format_usd(d.volume_24h);
    let mut l = text(header);
    l.append("\nAsset: ");
    l.append(asset);
    l.append("\nAction: ");
    l.append(side_label(d.apr_now));
    l.append(" to earn $");
    append_fixed(&mut l, yield_of(d.apr_now), 2, false);
    l.append("/day per $100\nScore: ");
    append_fixed(&mut l, d.score, 0, false);
    l.append("/100\nConfidence: ");
    l.append(tier_label(d.tier));
    l.append(" (");
    append_fixed(&mut l, d.history_h, 1, false);
    l.append("h data, std ");
    append_fixed(&mut l, d.std_pct, 0, false);
    l.append("%)\nVolume 24h: ");
    l.append(volume.as_str());
    l.append("\nRecommended size: ");
    l.append(tier_size_pct(d.tier));
    l.append(" of capital\n\n⚠️ Educational signal only. Verify before trading.");
    l
}

pub open spec fn lost_message_text(header: Seq<char>, asset: Seq<char>) -> Seq<char> {
    header + "\nAsset: "@ + asset + "\nSignal dropped from action list."@
}

/// The message on a signal that is gone.
fn lost_message(header: &str, asset: &str) -> (r: String)
    ensures
        r@ == lost_message_text(header@, asset@),
{
    let mut l = text(header);
    l.append("\nAsset: ");
    l.append(asset);
    l.append("\nSignal dropped from action list.");
    l
}

/// A message.
pub open spec fn message_text(e: EventView) -> Seq<char> {
    match e.signal {
        Some(d) => signal_message_text(header_text(e), e.asset, d),
        None => lost_message_text(header_text(e), e.asset),
    }
}

/// The message on an event.
pub fn render_event(e: &AlertEvent) -> (r: String)
    ensures
        r@ == message_text(event_view(*e)),
{
    let first = header(e);
    match e.signal {
        Some(d) => signal_message(first.as_str(), e.asset.as_str(), &d),
        None => lost_message(first.as_str(), e.asset.as_str()),
    }
}

/// Whether messages can be delivered: a token and a chat are given, and neither is empty.
pub fn has_channel(token: &Option<String>, chat: &Option<String>) -> (r: bool)
    ensures
        r == (match (*token, *chat) {
            (Some(t), Some(c)) => t@.len() > 0 && c@.len() > 0,
            _ => false,
        }),
{
    match (token, chat) {
        (Some(t), Some(c)) => t.as_str().unicode_len() > 0 && c.as_str().unicode_len() > 0,
        _ => false,
    }
}

} // verus!
