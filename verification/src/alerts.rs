//! The alert monitor: which changes of a signal are told, and how often.
//!
//! At most one message on an asset in half an hour; an asset that changes three times in ten
//! minutes is silent for an hour. Times are nanoseconds of one clock that never goes back.

use crate::signals::{signal_views, signals_differ, Signal, SignalData};
use crate::tier::{rank_spec, tier_rank, Tier};
use vstd::prelude::*;

verus! {

/// The time between two looks at the signals, in seconds.
pub const POLL_SECONDS: u64 = 60;

/// The least time between two messages on an asset: half an hour.
pub const COOLDOWN: u64 = 1_800_000_000_000;

/// The time in which changes are counted: ten minutes.
pub const FLIPFLOP_WINDOW: u64 = 600_000_000_000;

/// So many changes are too many.
pub const FLIPFLOP_THRESHOLD: usize = 3;

/// How long an unstable asset is silent: an hour.
pub const MUTE_DURATION: u64 = 3_600_000_000_000;

/// What happened to a signal.
#[derive(Clone, Copy, Debug, PartialEq, Eq, Structural)]
pub enum AlertKind {
    NewSignal,
    TierUp,
    TierDown,
    SignalLost,
}

/// A change that is worth a message.
pub struct AlertEvent {
    pub asset: String,
    pub kind: AlertKind,
    /// None where the signal is gone.
    pub signal: Option<SignalData>,
    /// None where there was none before.
    pub prev_tier: Option<Tier>,
}

/// A change, with the name of its asset.
pub struct EventView {
    pub asset: Seq<char>,
    pub kind: AlertKind,
    pub signal: Option<SignalData>,
    pub prev_tier: Option<Tier>,
}

pub open spec fn event_views(events: Seq<AlertEvent>) -> Seq<EventView> {
    events.map_values(
        |e: AlertEvent|
            EventView {
                asset: e.asset@,
                kind: e.kind,
                signal: e.signal,
                prev_tier: e.prev_tier,
            },
    )
}

/// What is known of an asset.
struct Record {
    asset: String,
    /// Its tier when the signals were last looked at.
    tier: Option<Tier>,
    last_sent: Option<u64>,
    /// When its tier changed, in the time in which changes are counted.
    changes: Vec<u64>,
    muted_until: Option<u64>,
}

/// What is known of an asset, apart from its name.
pub struct Memory {
    pub tier: Option<Tier>,
    pub last_sent: Option<u64>,
    pub changes: Seq<u64>,
    pub muted_until: Option<u64>,
}

/// Nothing is known.
pub open spec fn blank() -> Memory {
    Memory { tier: None, last_sent: None, changes: Seq::empty(), muted_until: None }
}

spec fn remembered(r: Record) -> Memory {
    Memory {
        tier: r.tier,
        last_sent: r.last_sent,
        changes: r.changes@,
        muted_until: r.muted_until,
    }
}

/// What the monitor remembers.
pub struct AlertState {
    /// At most one for each asset.
    records: Vec<Record>,
}

/// An asset is in a list of names.
pub open spec fn with_name(names: Seq<Seq<char>>, asset: Seq<char>) -> Seq<Seq<char>> {
    if names.contains(asset) {
        names
    } else {
        names.push(asset)
    }
}

impl AlertState {
    /// No asset has two records.
    pub closed spec fn wf(self) -> bool {
        forall|i: int, j: int|
            0 <= i < j < self.records@.len() ==> (#[trigger] self.records@[i]).asset@ != (
            #[trigger] self.records@[j]).asset@
    }

    /// The known assets, in the order in which they came up.
    pub closed spec fn names(self) -> Seq<Seq<char>> {
        self.records@.map_values(|r: Record| r.asset@)
    }

    /// What is known of an asset.
    pub closed spec fn memory(self, asset: Seq<char>) -> Memory {
        if exists|i: int| 0 <= i < self.records@.len() && (#[trigger] self.records@[i]).asset@ == asset {
            let i = choose|i: int|
                0 <= i < self.records@.len() && (#[trigger] self.records@[i]).asset@ == asset;
            remembered(self.records@[i])
        } else {
            blank()
        }
    }

    /// Of `asset` is known `m`; of the others what was.
    pub open spec fn updated(self, before: AlertState, asset: Seq<char>, m: Memory) -> bool {
        &&& self.wf()
        &&& self.names() == with_name(before.names(), asset)
        &&& self.memory(asset) == m
        &&& forall|other: Seq<char>|
            other != asset ==> #[trigger] self.memory(other) == before.memory(other)
    }
}

/// Every known asset has one name in the list, and of the others nothing is known.
pub proof fn what_is_known_is_listed(s: AlertState)
    requires
        s.wf(),
    ensures
        s.names().no_duplicates(),
        forall|asset: Seq<char>|
            !s.names().contains(asset) ==> #[trigger] s.memory(asset) == blank(),
{
    assert forall|i: int, j: int|
        0 <= i < s.names().len() && 0 <= j < s.names().len() && i != j implies s.names()[i]
        != s.names()[j] by {
        let a = if i < j { i } else { j };
        let b = if i < j { j } else { i };
        assert(s.records@[a].asset@ != s.records@[b].asset@);
    }
    assert forall|asset: Seq<char>| !s.names().contains(asset) implies #[trigger] s.memory(asset)
        == blank() by {
        assert forall|i: int| 0 <= i < s.records@.len() implies (
        #[trigger] s.records@[i]).asset@ != asset by {
            assert(s.names()[i] == s.records@[i].asset@);
        }
    }
}

proof fn lemma_memory(s: AlertState, i: int)
    requires
        s.wf(),
        0 <= i < s.records@.len(),
    ensures
        s.memory(s.records@[i].asset@) == remembered(s.records@[i]),
{
    let asset = s.records@[i].asset@;
    let k = choose|k: int| 0 <= k < s.records@.len() && (#[trigger] s.records@[k]).asset@ == asset;
    if k < i {
        assert(s.records@[k].asset@ != s.records@[i].asset@);
    } else if k > i {
        assert(s.records@[i].asset@ != s.records@[k].asset@);
    }
}

/// Two states that agree on all records but one agree on all other assets.
proof fn lemma_one_record(before: AlertState, after: AlertState, g: int)
    requires
        before.wf(),
        0 <= g < before.records@.len(),
        after.records@.len() == before.records@.len(),
        after.records@[g].asset@ == before.records@[g].asset@,
        forall|k: int|
            0 <= k < before.records@.len() && k != g ==> #[trigger] after.records@[k]
                == before.records@[k],
    ensures
        after.updated(before, before.records@[g].asset@, remembered(after.records@[g])),
{
    let asset = before.records@[g].asset@;
    assert forall|k: int| 0 <= k < after.records@.len() implies (
    #[trigger] after.records@[k]).asset@ == before.records@[k].asset@ by {}
    assert(after.wf());
    assert(before.names()[g] == asset);
    assert(after.names() =~= before.names());
    lemma_memory(after, g);
    assert forall|other: Seq<char>| other != asset implies #[trigger] after.memory(other)
        == before.memory(other) by {
        lemma_same_elsewhere(before, after, g, other);
    }
}

proof fn lemma_same_elsewhere(before: AlertState, after: AlertState, g: int, other: Seq<char>)
    requires
        before.wf(),
        after.wf(),
        0 <= g < before.records@.len(),
        after.records@.len() == before.records@.len(),
        after.records@[g].asset@ == before.records@[g].asset@,
        before.records@[g].asset@ != other,
        forall|k: int|
            0 <= k < before.records@.len() && k != g ==> #[trigger] after.records@[k]
                == before.records@[k],
    ensures
        after.memory(other) == before.memory(other),
{
    if exists|i: int| 0 <= i < before.records@.len() && (#[trigger] before.records@[i]).asset@ == other {
        let i = choose|i: int|
            0 <= i < before.records@.len() && (#[trigger] before.records@[i]).asset@ == other;
        assert(after.records@[i] == before.records@[i]);
        lemma_memory(before, i);
        lemma_memory(after, i);
    } else {
        assert forall|i: int| 0 <= i < after.records@.len() implies (
        #[trigger] after.records@[i]).asset@ != other by {
            assert(before.records@[i].asset@ != other);
        }
    }
}

/// A state with one blank record more knows the same.
proof fn lemma_blank_record(before: AlertState, after: AlertState, asset: Seq<char>)
    requires
        before.wf(),
        forall|i: int|
            0 <= i < before.records@.len() ==> (#[trigger] before.records@[i]).asset@ != asset,
        after.records@.len() == before.records@.len() + 1,
        after.records@.last().asset@ == asset,
        remembered(after.records@.last()) == blank(),
        forall|k: int|
            0 <= k < before.records@.len() ==> #[trigger] after.records@[k] == before.records@[k],
    ensures
        after.wf(),
        after.names() == with_name(before.names(), asset),
        forall|other: Seq<char>| #[trigger] after.memory(other) == before.memory(other),
{
    let n = before.records@.len() as int;
    assert(after.wf()) by {
        assert forall|i: int, j: int| 0 <= i < j < after.records@.len() implies (
        #[trigger] after.records@[i]).asset@ != (#[trigger] after.records@[j]).asset@ by {
            assert(after.records@[i] == before.records@[i]);
            if j < n {
                assert(after.records@[j] == before.records@[j]);
            }
        }
    }
    if before.names().contains(asset) {
        let k = choose|k: int| 0 <= k < n && before.names()[k] == asset;
        assert(before.records@[k].asset@ == asset);
    }
    assert(after.names() =~= before.names().push(asset));
    assert forall|other: Seq<char>| #[trigger] after.memory(other) == before.memory(other) by {
        if other == asset {
            lemma_memory(after, n);
        } else if exists|i: int|
            0 <= i < n && (#[trigger] before.records@[i]).asset@ == other {
            let i = choose|i: int| 0 <= i < n && (#[trigger] before.records@[i]).asset@ == other;
            assert(after.records@[i] == before.records@[i]);
            lemma_memory(before, i);
            lemma_memory(after, i);
        } else {
            assert forall|i: int| 0 <= i < after.records@.len() implies (
            #[trigger] after.records@[i]).asset@ != other by {
                if i < n {
                    assert(after.records@[i] == before.records@[i]);
                }
            }
        }
    }
}

// Transitions.

/// A tier that is told; a weak signal is not.
pub open spec fn tracked_tier(t: Tier) -> bool {
    t != Tier::Weak
}

/// Whether changes from and to a tier are told.
pub fn trackable(t: Tier) -> (r: bool)
    ensures
        r == tracked_tier(t),
{
    match t {
        Tier::Strong => true,
        Tier::Medium => true,
        Tier::Early => true,
        Tier::Weak => false,
    }
}

/// What a change of a tier is told as. A strong or a medium signal that was none or a weak one is
/// new; an early one that appears is not told. One that turns weak is lost.
pub open spec fn transition_spec(prev: Option<Tier>, now: Tier) -> Option<AlertKind> {
    match prev {
        None => if now == Tier::Strong || now == Tier::Medium {
            Some(AlertKind::NewSignal)
        } else {
            None
        },
        Some(p) => if p == now {
            None
        } else if p == Tier::Weak {
            if now == Tier::Early {
                None
            } else {
                Some(AlertKind::NewSignal)
            }
        } else if now == Tier::Weak {
            Some(AlertKind::SignalLost)
        } else if rank_spec(now) > rank_spec(p) {
            Some(AlertKind::TierUp)
        } else {
            Some(AlertKind::TierDown)
        },
    }
}

/// What a change of a tier is told as.
pub fn transition(prev: Option<Tier>, now: Tier) -> (r: Option<AlertKind>)
    ensures
        r == transition_spec(prev, now),
{
    match prev {
        None => match now {
            Tier::Strong => Some(AlertKind::NewSignal),
            Tier::Medium => Some(AlertKind::NewSignal),
            _ => None,
        },
        Some(p) => if p == now {
            None
        } else if trackable(p) && trackable(now) {
            if tier_rank(now) > tier_rank(p) {
                Some(AlertKind::TierUp)
            } else {
                Some(AlertKind::TierDown)
            }
        } else if trackable(p) {
            Some(AlertKind::SignalLost)
        } else if now == Tier::Early {
            None
        } else {
            Some(AlertKind::NewSignal)
        },
    }
}

/// Every event has to do with a tier that is told; a rise and a fall are between two of them, in
/// the order of the ranks.
pub proof fn events_are_about_tracked_tiers(prev: Option<Tier>, now: Tier)
    ensures
        transition_spec(prev, now) == Some(AlertKind::NewSignal) ==> {
            &&& now == Tier::Strong || now == Tier::Medium
            &&& prev is None || prev == Some(Tier::Weak)
        },
        transition_spec(prev, now) == Some(AlertKind::TierUp) ==> prev is Some && tracked_tier(
            prev->0,
        ) && tracked_tier(now) && rank_spec(prev->0) < rank_spec(now),
        transition_spec(prev, now) == Some(AlertKind::TierDown) ==> prev is Some && tracked_tier(
            prev->0,
        ) && tracked_tier(now) && rank_spec(prev->0) > rank_spec(now),
        transition_spec(prev, now) == Some(AlertKind::SignalLost) ==> prev is Some && tracked_tier(
            prev->0,
        ) && now == Tier::Weak,
{
}

// Limits.

/// The changes that still count at `now`.
pub open spec fn counted(changes: Seq<u64>, now: u64) -> Seq<u64>
    decreases changes.len(),
{
    if changes.len() == 0 {
        Seq::empty()
    } else if changes.last() > now || now - changes.last() < FLIPFLOP_WINDOW {
        counted(changes.drop_last(), now).push(changes.last())
    } else {
        counted(changes.drop_last(), now)
    }
}

/// The changes that count, with one more.
pub open spec fn logged(changes: Seq<u64>, now: u64) -> Seq<u64> {
    counted(changes, now).push(now)
}

/// The changes that still count.
fn list_counted(changes: &Vec<u64>, now: u64) -> (r: Vec<u64>)
    ensures
        r@ == counted(changes@, now),
{
    let mut out: Vec<u64> = Vec::new();
    let n: usize = changes.len();
    let mut i: usize = 0;
    while i < n
        invariant
            n == changes@.len(),
            i <= n,
            out@ == counted(changes@.take(i as int), now),
        decreases n - i,
    {
        assert(changes@.take(i + 1).drop_last() =~= changes@.take(i as int));
        let t: u64 = changes[i];
        if t > now || now - t < FLIPFLOP_WINDOW {
            out.push(t);
        }
        i = i + 1;
    }
    assert(changes@.take(n as int) =~= changes@);
    out
}

fn log_change(changes: &Vec<u64>, now: u64) -> (r: Vec<u64>)
    ensures
        r@ == logged(changes@, now),
{
    let mut out = list_counted(changes, now);
    out.push(now);
    out
}

/// Whether a message on an asset may be sent.
#[derive(Clone, Copy, Debug, PartialEq, Eq, Structural)]
pub enum Decision {
    Send,
    /// The asset is muted.
    Muted,
    /// The last message is too recent.
    Cooling,
    /// The asset has changed too often, so many times, and is muted from now on.
    Unstable(usize),
}

/// Less than `span` has passed from `since` to `now`.
pub open spec fn within(since: u64, now: u64, span: u64) -> bool {
    since > now || now - since < span
}

pub open spec fn decision(m: Memory, now: u64) -> Decision {
    if m.muted_until matches Some(until) && now < until {
        Decision::Muted
    } else if m.last_sent matches Some(last) && within(last, now, COOLDOWN) {
        Decision::Cooling
    } else if counted(m.changes, now).len() >= FLIPFLOP_THRESHOLD {
        Decision::Unstable(counted(m.changes, now).len() as usize)
    } else {
        Decision::Send
    }
}

/// What is known after a decision.
pub open spec fn decided(m: Memory, now: u64) -> Memory {
    if decision(m, now) is Unstable {
        Memory { muted_until: Some((now + MUTE_DURATION) as u64), ..m }
    } else {
        m
    }
}

/// After a message no other one on the asset is sent for half an hour.
pub proof fn messages_keep_their_distance(m: Memory, now: u64)
    requires
        decision(m, now) == Decision::Send,
    ensures
        m.last_sent matches Some(last) ==> now >= last + COOLDOWN,
{
}

/// An asset that is found unstable is silent for an hour, whatever else becomes of it.
pub proof fn an_unstable_asset_is_silent_for_an_hour(
    m: Memory,
    now: u64,
    later: u64,
    after: Memory,
)
    requires
        decision(m, now) is Unstable,
        now <= later < now + MUTE_DURATION <= u64::MAX,
        after.muted_until == decided(m, now).muted_until,
    ensures
        decision(after, later) == Decision::Muted,
        decided(after, later) == after,
{
}

/// With three changes in the last ten minutes no message is sent.
pub proof fn flip_flops_are_not_told(m: Memory, now: u64)
    requires
        counted(m.changes, now).len() >= FLIPFLOP_THRESHOLD,
    ensures
        decision(m, now) != Decision::Send,
{
}

/// Changes that are ten minutes old do not keep a message back and do not mute the asset.
pub proof fn old_changes_are_forgiven(m: Memory, now: u64)
    requires
        forall|i: int|
            0 <= i < m.changes.len() ==> !within(#[trigger] m.changes[i], now, FLIPFLOP_WINDOW),
    ensures
        !(decision(m, now) is Unstable),
        decided(m, now) == m,
        m.muted_until is None && m.last_sent is None ==> decision(m, now) == Decision::Send,
{
    lemma_counted(m.changes, now);
    if counted(m.changes, now).len() > 0 {
        let c = counted(m.changes, now)[0];
        let k = choose|k: int| 0 <= k < m.changes.len() && m.changes[k] == c;
        assert(within(m.changes[k], now, FLIPFLOP_WINDOW));
    }
}

proof fn lemma_counted(changes: Seq<u64>, now: u64)
    ensures
        counted(changes, now).len() <= changes.len(),
        forall|i: int|
            0 <= i < counted(changes, now).len() ==> {
                &&& within(#[trigger] counted(changes, now)[i], now, FLIPFLOP_WINDOW)
                &&& changes.contains(counted(changes, now)[i])
            },
    decreases changes.len(),
{
    if changes.len() > 0 {
        let rest = changes.drop_last();
        lemma_counted(rest, now);
        let before = counted(rest, now);
        let all = counted(changes, now);
        assert forall|i: int| 0 <= i < all.len() implies {
            &&& within(#[trigger] all[i], now, FLIPFLOP_WINDOW)
            &&& changes.contains(all[i])
        } by {
            if i < before.len() {
                assert(all[i] == before[i]);
                let k = choose|k: int| 0 <= k < rest.len() && rest[k] == before[i];
                assert(changes[k] == all[i]);
            } else {
                assert(changes[changes.len() - 1] == all[i]);
            }
        }
    }
}

/// The changes that are kept are the new one and those of the last ten minutes.
pub proof fn only_recent_changes_count(changes: Seq<u64>, now: u64)
    ensures
        logged(changes, now).last() == now,
        logged(changes, now).len() <= changes.len() + 1,
        forall|i: int|
            0 <= i < logged(changes, now).len() ==> within(
                #[trigger] logged(changes, now)[i],
                now,
                FLIPFLOP_WINDOW,
            ),
{
    lemma_counted(changes, now);
}

// The signals that are compared.

/// The signal of an asset.
pub open spec fn signal_in(current: Seq<(Seq<char>, SignalData)>, asset: Seq<char>) -> Option<
    SignalData,
>
    decreases current.len(),
{
    if current.len() == 0 {
        None
    } else if current.last().0 == asset {
        Some(current.last().1)
    } else {
        signal_in(current.drop_last(), asset)
    }
}

/// What is told of a change: a lost signal comes without figures, and a new one without a tier
/// before it.
pub open spec fn told_event(
    asset: Seq<char>,
    kind: AlertKind,
    data: SignalData,
    prev: Option<Tier>,
) -> EventView {
    EventView {
        asset,
        kind,
        signal: if kind == AlertKind::SignalLost {
            None
        } else {
            Some(data)
        },
        prev_tier: if kind == AlertKind::NewSignal {
            None
        } else {
            prev
        },
    }
}

/// What is told of the signals that there are.
pub open spec fn present_events(s: AlertState, current: Seq<(Seq<char>, SignalData)>) -> Seq<
    EventView,
>
    decreases current.len(),
{
    if current.len() == 0 {
        Seq::empty()
    } else {
        let before = present_events(s, current.drop_last());
        let (asset, data) = current.last();
        let prev = s.memory(asset).tier;
        match transition_spec(prev, data.tier) {
            Some(kind) => before.push(told_event(asset, kind, data, prev)),
            None => before,
        }
    }
}

/// An asset had a tier that is told and has no signal any more.
pub open spec fn vanished(
    s: AlertState,
    current: Seq<(Seq<char>, SignalData)>,
    asset: Seq<char>,
) -> bool {
    &&& s.memory(asset).tier matches Some(t)
    &&& tracked_tier(t)
    &&& signal_in(current, asset) is None
}

/// What is told of the assets that have no signal any more.
pub open spec fn lost_events(
    s: AlertState,
    current: Seq<(Seq<char>, SignalData)>,
    names: Seq<Seq<char>>,
) -> Seq<EventView>
    decreases names.len(),
{
    if names.len() == 0 {
        Seq::empty()
    } else {
        let before = lost_events(s, current, names.drop_last());
        let asset = names.last();
        if vanished(s, current, asset) {
            before.push(
                EventView {
                    asset,
                    kind: AlertKind::SignalLost,
                    signal: None,
                    prev_tier: s.memory(asset).tier,
                },
            )
        } else {
            before
        }
    }
}

/// What is told of a change from what is remembered to the current signals.
pub open spec fn all_events(s: AlertState, current: Seq<(Seq<char>, SignalData)>) -> Seq<EventView> {
    present_events(s, current) + lost_events(s, current, s.names())
}

/// The tier of an asset has changed, or its signal that was told is gone.
pub open spec fn changed(
    s: AlertState,
    current: Seq<(Seq<char>, SignalData)>,
    asset: Seq<char>,
) -> bool {
    match signal_in(current, asset) {
        Some(data) => s.memory(asset).tier != Some(data.tier),
        None => vanished(s, current, asset),
    }
}

/// What is known of an asset after the comparison.
pub open spec fn compared(
    s: AlertState,
    current: Seq<(Seq<char>, SignalData)>,
    now: u64,
    asset: Seq<char>,
) -> Memory {
    let m = s.memory(asset);
    if changed(s, current, asset) {
        Memory { changes: logged(m.changes, now), ..m }
    } else {
        m
    }
}

/// What is known of an asset after the current signals are remembered.
pub open spec fn committed(
    s: AlertState,
    current: Seq<(Seq<char>, SignalData)>,
    asset: Seq<char>,
) -> Memory {
    Memory {
        tier: match signal_in(current, asset) {
            Some(data) => Some(data.tier),
            None => None,
        },
        ..s.memory(asset)
    }
}

proof fn lemma_signal_in(current: Seq<(Seq<char>, SignalData)>, k: int)
    requires
        signals_differ(current),
        0 <= k < current.len(),
    ensures
        signal_in(current, current[k].0) == Some(current[k].1),
    decreases current.len(),
{
    if k < current.len() - 1 {
        let rest = current.drop_last();
        assert forall|i: int, j: int| 0 <= i < j < rest.len() implies (#[trigger] rest[i]).0 != (
        #[trigger] rest[j]).0 by {
            assert(rest[i] == current[i] && rest[j] == current[j]);
        }
        assert(rest[k] == current[k]);
        assert(current[k].0 != current[current.len() - 1].0);
        lemma_signal_in(rest, k);
    }
}

proof fn lemma_signal_in_some(current: Seq<(Seq<char>, SignalData)>, asset: Seq<char>) -> (k: int)
    requires
        signal_in(current, asset) is Some,
    ensures
        0 <= k < current.len(),
        current[k].0 == asset,
        signal_in(current, asset) == Some(current[k].1),
    decreases current.len(),
{
    if current.last().0 == asset {
        current.len() - 1
    } else {
        lemma_signal_in_some(current.drop_last(), asset)
    }
}

/// What is remembered are the tiers of the current signals.
spec fn up_to_date(s: AlertState, current: Seq<(Seq<char>, SignalData)>) -> bool {
    forall|asset: Seq<char>| (#[trigger] s.memory(asset)).tier == (match signal_in(
        current,
        asset,
    ) {
        Some(data) => Some(data.tier),
        None => None,
    })
}

/// Once signals are remembered, the same signals are not told again, and count as no change.
pub proof fn unchanged_signals_are_not_told(
    before: AlertState,
    s: AlertState,
    current: Seq<(Seq<char>, SignalData)>,
)
    requires
        signals_differ(current),
        forall|asset: Seq<char>| #[trigger]
            s.memory(asset) == committed(before, current, asset),
    ensures
        all_events(s, current) == Seq::<EventView>::empty(),
        forall|asset: Seq<char>| !#[trigger] changed(s, current, asset),
{
    assert forall|asset: Seq<char>| !#[trigger] changed(s, current, asset) by {
        assert(s.memory(asset) == committed(before, current, asset));
    }
    lemma_present_quiet(s, current, current.len());
    assert(current.take(current.len() as int) =~= current);
    lemma_lost_quiet(s, current, s.names());
    assert(all_events(s, current) =~= Seq::<EventView>::empty());
}

proof fn lemma_present_quiet(s: AlertState, current: Seq<(Seq<char>, SignalData)>, n: nat)
    requires
        signals_differ(current),
        n <= current.len(),
        up_to_date(s, current),
    ensures
        present_events(s, current.take(n as int)) == Seq::<EventView>::empty(),
    decreases n,
{
    let part = current.take(n as int);
    if n > 0 {
        lemma_present_quiet(s, current, (n - 1) as nat);
        assert(part.drop_last() =~= current.take(n - 1));
        lemma_signal_in(current, n - 1);
        assert(part.last() == current[n - 1]);
        assert(s.memory(current[n - 1].0).tier == Some(current[n - 1].1.tier));
    }
}

proof fn lemma_lost_quiet(
    s: AlertState,
    current: Seq<(Seq<char>, SignalData)>,
    names: Seq<Seq<char>>,
)
    requires
        up_to_date(s, current),
    ensures
        lost_events(s, current, names) == Seq::<EventView>::empty(),
    decreases names.len(),
{
    if names.len() > 0 {
        lemma_lost_quiet(s, current, names.drop_last());
    }
}

proof fn lemma_present_assets(s: AlertState, current: Seq<(Seq<char>, SignalData)>)
    requires
        signals_differ(current),
    ensures
        forall|i: int|
            0 <= i < present_events(s, current).len() ==> signal_in(
                current,
                (#[trigger] present_events(s, current)[i]).asset,
            ) is Some,
        forall|i: int, j: int|
            0 <= i < j < present_events(s, current).len() ==> (#[trigger] present_events(
                s,
                current,
            )[i]).asset != (#[trigger] present_events(s, current)[j]).asset,
    decreases current.len(),
{
    if current.len() > 0 {
        let rest = current.drop_last();
        let last = current.len() - 1;
        assert forall|i: int, j: int| 0 <= i < j < rest.len() implies (#[trigger] rest[i]).0 != (
        #[trigger] rest[j]).0 by {
            assert(rest[i] == current[i] && rest[j] == current[j]);
        }
        lemma_present_assets(s, rest);
        let before = present_events(s, rest);
        let now = present_events(s, current);
        assert forall|i: int| 0 <= i < now.len() implies signal_in(
            current,
            (#[trigger] now[i]).asset,
        ) is Some by {
            if i < before.len() {
                assert(now[i] == before[i]);
            }
        }
        assert forall|i: int, j: int| 0 <= i < j < now.len() implies (#[trigger] now[i]).asset
            != (#[trigger] now[j]).asset by {
            assert(now[i] == before[i]);
            if j < before.len() {
                assert(now[j] == before[j]);
            } else {
                let k = lemma_signal_in_some(rest, before[i].asset);
                assert(rest[k] == current[k]);
                assert(current[k].0 != current[last].0);
            }
        }
    }
}

proof fn lemma_lost_assets(
    s: AlertState,
    current: Seq<(Seq<char>, SignalData)>,
    names: Seq<Seq<char>>,
)
    requires
        names.no_duplicates(),
    ensures
        forall|i: int|
            0 <= i < lost_events(s, current, names).len() ==> {
                &&& names.contains((#[trigger] lost_events(s, current, names)[i]).asset)
                &&& signal_in(current, lost_events(s, current, names)[i].asset) is None
            },
        forall|i: int, j: int|
            0 <= i < j < lost_events(s, current, names).len() ==> (#[trigger] lost_events(
                s,
                current,
                names,
            )[i]).asset != (#[trigger] lost_events(s, current, names)[j]).asset,
    decreases names.len(),
{
    if names.len() > 0 {
        let rest = names.drop_last();
        lemma_lost_assets(s, current, rest);
        let before = lost_events(s, current, rest);
        let now = lost_events(s, current, names);
        assert forall|i: int| 0 <= i < now.len() implies {
            &&& names.contains((#[trigger] now[i]).asset)
            &&& signal_in(current, now[i].asset) is None
        } by {
            if i < before.len() {
                assert(now[i] == before[i]);
                let k = choose|k: int| 0 <= k < rest.len() && rest[k] == before[i].asset;
                assert(names[k] == now[i].asset);
            } else {
                assert(names[names.len() - 1] == now[i].asset);
            }
        }
        assert forall|i: int, j: int| 0 <= i < j < now.len() implies (#[trigger] now[i]).asset
            != (#[trigger] now[j]).asset by {
            assert(now[i] == before[i]);
            if j < before.len() {
                assert(now[j] == before[j]);
            } else {
                let k = choose|k: int| 0 <= k < rest.len() && rest[k] == before[i].asset;
                assert(names[k] != names[names.len() - 1]);
            }
        }
    }
}

/// A comparison tells at most one thing of each asset.
pub proof fn one_event_for_each_asset(
    s: AlertState,
    current: Seq<(Seq<char>, SignalData)>,
    i: int,
    j: int,
)
    requires
        s.wf(),
        signals_differ(current),
        0 <= i < j < all_events(s, current).len(),
    ensures
        all_events(s, current)[i].asset != all_events(s, current)[j].asset,
{
    let names = s.names();
    what_is_known_is_listed(s);
    lemma_present_assets(s, current);
    lemma_lost_assets(s, current, names);
    let first = present_events(s, current);
    let second = lost_events(s, current, names);
    let all = all_events(s, current);
    if j < first.len() {
        assert(all[i] == first[i] && all[j] == first[j]);
    } else if i >= first.len() {
        assert(all[i] == second[i - first.len()] && all[j] == second[j - first.len()]);
    } else {
        assert(all[i] == first[i] && all[j] == second[j - first.len()]);
    }
}

/// What a comparison tells of an asset goes with what is known of it: a lost signal comes without
/// figures and any other with those of the asset, a new one without a tier before it and any
/// other with the tier that was remembered.
pub open spec fn carries_what_it_tells(
    s: AlertState,
    current: Seq<(Seq<char>, SignalData)>,
    e: EventView,
) -> bool {
    &&& e.kind == AlertKind::SignalLost ==> e.signal is None
    &&& e.kind != AlertKind::SignalLost ==> e.signal is Some && e.signal == signal_in(
        current,
        e.asset,
    )
    &&& e.kind == AlertKind::NewSignal ==> e.prev_tier is None
    &&& e.kind != AlertKind::NewSignal ==> e.prev_tier is Some && e.prev_tier == s.memory(
        e.asset,
    ).tier
}

proof fn lemma_present_carry(s: AlertState, current: Seq<(Seq<char>, SignalData)>)
    requires
        signals_differ(current),
    ensures
        forall|i: int|
            0 <= i < present_events(s, current).len() ==> carries_what_it_tells(
                s,
                current,
                #[trigger] present_events(s, current)[i],
            ),
    decreases current.len(),
{
    if current.len() > 0 {
        let rest = current.drop_last();
        let last = current.len() - 1;
        assert forall|i: int, j: int| 0 <= i < j < rest.len() implies (#[trigger] rest[i]).0 != (
        #[trigger] rest[j]).0 by {
            assert(rest[i] == current[i] && rest[j] == current[j]);
        }
        lemma_present_carry(s, rest);
        lemma_present_assets(s, rest);
        let so_far = present_events(s, rest);
        let now = present_events(s, current);
        assert forall|i: int| 0 <= i < now.len() implies carries_what_it_tells(
            s,
            current,
            #[trigger] now[i],
        ) by {
            if i < so_far.len() {
                assert(now[i] == so_far[i]);
                let k = lemma_signal_in_some(rest, so_far[i].asset);
                assert(rest[k] == current[k]);
                assert(current[k].0 != current[last].0);
            }
        }
    }
}

proof fn lemma_lost_carry(
    s: AlertState,
    current: Seq<(Seq<char>, SignalData)>,
    names: Seq<Seq<char>>,
)
    ensures
        forall|i: int|
            0 <= i < lost_events(s, current, names).len() ==> carries_what_it_tells(
                s,
                current,
                #[trigger] lost_events(s, current, names)[i],
            ),
    decreases names.len(),
{
    if names.len() > 0 {
        let rest = names.drop_last();
        lemma_lost_carry(s, current, rest);
        let so_far = lost_events(s, current, rest);
        let now = lost_events(s, current, names);
        assert forall|i: int| 0 <= i < now.len() implies carries_what_it_tells(
            s,
            current,
            #[trigger] now[i],
        ) by {
            if i < so_far.len() {
                assert(now[i] == so_far[i]);
            }
        }
    }
}

/// Every event of a comparison carries what goes with its kind.
pub proof fn events_carry_what_they_tell(
    s: AlertState,
    current: Seq<(Seq<char>, SignalData)>,
    i: int,
)
    requires
        signals_differ(current),
        0 <= i < all_events(s, current).len(),
    ensures
        carries_what_it_tells(s, current, all_events(s, current)[i]),
{
    lemma_present_carry(s, current);
    lemma_lost_carry(s, current, s.names());
    let first = present_events(s, current);
    if i < first.len() {
        assert(all_events(s, current)[i] == first[i]);
    } else {
        assert(all_events(s, current)[i] == lost_events(s, current, s.names())[i - first.len()]);
    }
}

impl AlertState {
    /// A monitor that remembers nothing.
    pub fn new() -> (r: AlertState)
        ensures
            r.wf(),
            r.names() == Seq::<Seq<char>>::empty(),
            forall|asset: Seq<char>| #[trigger] r.memory(asset) == blank(),
    {
        let r = AlertState { records: Vec::new() };
        assert(r.names() =~= Seq::<Seq<char>>::empty());
        r
    }

    fn find(&self, asset: &String) -> (r: Option<usize>)
        requires
            self.wf(),
        ensures
            match r {
                Some(g) => {
                    &&& g < self.records@.len()
                    &&& self.records@[g as int].asset@ == asset@
                    &&& self.memory(asset@) == remembered(self.records@[g as int])
                },
                None => {
                    &&& self.memory(asset@) == blank()
                    &&& forall|i: int|
                        0 <= i < self.records@.len() ==> (#[trigger] self.records@[i]).asset@
                            != asset@
                },
            },
    {
        let n: usize = self.records.len();
        let mut g: usize = 0;
        while g < n
            invariant
                self.wf(),
                n == self.records@.len(),
                g <= n,
                forall|k: int| 0 <= k < g ==> (#[trigger] self.records@[k]).asset@ != asset@,
            decreases n - g,
        {
            if self.records[g].asset == *asset {
                proof {
                    lemma_memory(*self, g as int);
                }
                return Some(g);
            }
            g = g + 1;
        }
        None
    }

    /// The place of an asset's record, which is made where there is none.
    fn place(&mut self, asset: &String) -> (g: usize)
        requires
            old(self).wf(),
        ensures
            final(self).wf(),
            g < final(self).records@.len(),
            final(self).records@[g as int].asset@ == asset@,
            remembered(final(self).records@[g as int]) == old(self).memory(asset@),
            final(self).names() == with_name(old(self).names(), asset@),
            forall|other: Seq<char>| #[trigger]
                final(self).memory(other) == old(self).memory(other),
    {
        match self.find(asset) {
            Some(g) => {
                assert(self.names()[g as int] == asset@);
                g
            },
            None => {
                let ghost before = *self;
                let g: usize = self.records.len();
                let record = Record {
                    asset: asset.clone(),
                    tier: None,
                    last_sent: None,
                    changes: Vec::new(),
                    muted_until: None,
                };
                assert(remembered(record).changes =~= Seq::<u64>::empty());
                self.records.push(record);
                proof {
                    lemma_blank_record(before, *self, asset@);
                }
                g
            },
        }
    }

    /// The tier of an asset when the signals were last looked at.
    pub fn tier_of(&self, asset: &String) -> (r: Option<Tier>)
        requires
            self.wf(),
        ensures
            r == self.memory(asset@).tier,
    {
        match self.find(asset) {
            Some(g) => self.records[g].tier,
            None => None,
        }
    }

    /// Counts a change of an asset's tier, and forgets those that no longer count.
    pub fn record_change(&mut self, asset: &String, now: u64)
        requires
            old(self).wf(),
        ensures
            final(self).updated(
                *old(self),
                asset@,
                Memory {
                    changes: logged(old(self).memory(asset@).changes, now),
                    ..old(self).memory(asset@)
                },
            ),
    {
        let g: usize = self.place(asset);
        let ghost before = *self;
        let changes = log_change(&self.records[g].changes, now);
        self.records[g].changes = changes;
        proof {
            lemma_one_record(before, *self, g as int);
            assert(before.names()[g as int] == asset@);
        }
    }

    /// Whether a message on an asset may be sent.
    pub fn decide(&self, asset: &String, now: u64) -> (r: Decision)
        requires
            self.wf(),
        ensures
            r == decision(self.memory(asset@), now),
    {
        match self.find(asset) {
            Some(g) => {
                let record: &Record = &self.records[g];
                match record.muted_until {
                    Some(until) => if now < until {
                        return Decision::Muted;
                    },
                    None => {},
                }
                match record.last_sent {
                    Some(last) => if last > now || now - last < COOLDOWN {
                        return Decision::Cooling;
                    },
                    None => {},
                }
                let changes: usize = list_counted(&record.changes, now).len();
                if changes >= FLIPFLOP_THRESHOLD {
                    Decision::Unstable(changes)
                } else {
                    Decision::Send
                }
            },
            None => Decision::Send,
        }
    }

    /// Whether a message on an asset may be sent; an unstable asset is muted.
    pub fn check_and_consume(&mut self, asset: &String, now: u64) -> (r: bool)
        requires
            old(self).wf(),
            now <= u64::MAX - MUTE_DURATION,
        ensures
            r == (decision(old(self).memory(asset@), now) == Decision::Send),
            decision(old(self).memory(asset@), now) is Unstable ==> final(self).updated(
                *old(self),
                asset@,
                decided(old(self).memory(asset@), now),
            ),
            !(decision(old(self).memory(asset@), now) is Unstable) ==> *final(self) == *old(self),
    {
        match self.decide(asset, now) {
            Decision::Send => true,
            Decision::Muted => false,
            Decision::Cooling => false,
            Decision::Unstable(_) => {
                let g: usize = self.place(asset);
                let ghost before = *self;
                self.records[g].muted_until = Some(now + MUTE_DURATION);
                proof {
                    lemma_one_record(before, *self, g as int);
                    assert(before.names()[g as int] == asset@);
                }
                false
            },
        }
    }

    /// Remembers that a message on an asset was sent.
    pub fn mark_sent(&mut self, asset: &String, now: u64)
        requires
            old(self).wf(),
        ensures
            final(self).updated(
                *old(self),
                asset@,
                Memory { last_sent: Some(now), ..old(self).memory(asset@) },
            ),
    {
        let g: usize = self.place(asset);
        let ghost before = *self;
        self.records[g].last_sent = Some(now);
        proof {
            lemma_one_record(before, *self, g as int);
            assert(before.names()[g as int] == asset@);
        }
    }

    /// Remembers the current signals in place of the former ones.
    pub fn commit(&mut self, current: &Vec<Signal>)
        requires
            old(self).wf(),
            signals_differ(signal_views(current@)),
        ensures
            final(self).wf(),
            forall|asset: Seq<char>| #[trigger]
                final(self).memory(asset) == committed(
                    *old(self),
                    signal_views(current@),
                    asset,
                ),
    {
        let ghost start = *self;
        self.forget_tiers();
        let ghost cleared = *self;
        let n: usize = current.len();
        let mut i: usize = 0;
        let ghost views = signal_views(current@);
        assert(views.take(0) =~= Seq::<(Seq<char>, SignalData)>::empty());
        while i < n
            invariant
                n == current@.len(),
                i <= n,
                views == signal_views(current@),
                self.wf(),
                forall|asset: Seq<char>| #[trigger]
                    self.memory(asset) == committed(start, views.take(i as int), asset),
            decreases n - i,
        {
            let ghost before = *self;
            let g: usize = self.place(&current[i].asset);
            let ghost placed = *self;
            self.records[g].tier = Some(current[i].data.tier);
            proof {
                lemma_one_record(placed, *self, g as int);
                let part = views.take(i + 1);
                assert(part.drop_last() =~= views.take(i as int));
                assert(part.last() == (current@[i as int].asset@, current@[i as int].data));
                assert forall|asset: Seq<char>| #[trigger]
                    self.memory(asset) == committed(start, part, asset) by {
                    assert(placed.memory(asset) == before.memory(asset));
                    assert(before.memory(asset) == committed(start, views.take(i as int), asset));
                }
            }
            i = i + 1;
        }
        assert(views.take(n as int) =~= views);
    }

    fn forget_tiers(&mut self)
        requires
            old(self).wf(),
        ensures
            final(self).wf(),
            final(self).names() == old(self).names(),
            forall|asset: Seq<char>| #[trigger]
                final(self).memory(asset) == (Memory { tier: None, ..old(self).memory(asset) }),
    {
        let ghost start = *self;
        let n: usize = self.records.len();
        let mut i: usize = 0;
        while i < n
            invariant
                start.wf(),
                n == start.records@.len(),
                n == self.records@.len(),
                i <= n,
                forall|k: int|
                    0 <= k < n ==> (#[trigger] self.records@[k]).asset@
                        == start.records@[k].asset@,
                forall|k: int|
                    0 <= k < i ==> remembered(#[trigger] self.records@[k]) == (Memory {
                        tier: None,
                        ..remembered(start.records@[k])
                    }),
                forall|k: int| i <= k < n ==> #[trigger] self.records@[k] == start.records@[k],
            decreases n - i,
        {
            self.records[i].tier = None;
            i = i + 1;
        }
        proof {
            let after = *self;
            assert(after.wf()) by {
                assert forall|a: int, b: int| 0 <= a < b < after.records@.len() implies (
                #[trigger] after.records@[a]).asset@ != (#[trigger] after.records@[b]).asset@ by {
                    assert(start.records@[a].asset@ != start.records@[b].asset@);
                }
            }
            assert(after.names() =~= start.names());
            assert forall|asset: Seq<char>| #[trigger]
                after.memory(asset) == (Memory { tier: None, ..start.memory(asset) }) by {
                if exists|k: int|
                    0 <= k < n && (#[trigger] start.records@[k]).asset@ == asset {
                    let k = choose|k: int|
                        0 <= k < n && (#[trigger] start.records@[k]).asset@ == asset;
                    assert(after.records@[k].asset@ == asset);
                    lemma_memory(start, k);
                    lemma_memory(after, k);
                } else {
                    assert forall|k: int| 0 <= k < n implies (
                    #[trigger] after.records@[k]).asset@ != asset by {
                        assert(start.records@[k].asset@ != asset);
                    }
                }
            }
        }
    }

    /// Compares the current signals with those that are remembered, counts the changes, and gives
    /// what is to be told: first of the signals that there are, in their order, then of those that
    /// are gone, in the order in which they came up.
    pub fn diff(&mut self, current: &Vec<Signal>, now: u64) -> (events: Vec<AlertEvent>)
        requires
            old(self).wf(),
            signals_differ(signal_views(current@)),
        ensures
            final(self).wf(),
            event_views(events@) == all_events(*old(self), signal_views(current@)),
            forall|asset: Seq<char>| #[trigger]
                final(self).memory(asset) == compared(
                    *old(self),
                    signal_views(current@),
                    now,
                    asset,
                ),
    {
        let ghost start = *self;
        let ghost views = signal_views(current@);
        let known: usize = self.records.len();
        let mut events = self.compare_present(current, now);
        let ghost told = events@;
        let mut gone = self.compare_lost(current, now, known, Ghost(start));
        let ghost lost = gone@;
        events.append(&mut gone);
        assert(event_views(events@) =~= event_views(told) + event_views(lost));
        events
    }

    /// What there is to tell of the signals that there are.
    fn compare_present(&mut self, current: &Vec<Signal>, now: u64) -> (events: Vec<AlertEvent>)
        requires
            old(self).wf(),
            signals_differ(signal_views(current@)),
        ensures
            final(self).wf(),
            event_views(events@) == present_events(*old(self), signal_views(current@)),
            final(self).records@.len() >= old(self).records@.len(),
            final(self).names().take(old(self).records@.len() as int) == old(self).names(),
            forall|asset: Seq<char>| #[trigger]
                final(self).memory(asset) == seen(
                    *old(self),
                    signal_views(current@),
                    now,
                    asset,
                ),
    {
        let ghost start = *self;
        let ghost views = signal_views(current@);
        let ghost known = self.records@.len() as int;
        let mut events: Vec<AlertEvent> = Vec::new();
        let n: usize = current.len();
        let mut i: usize = 0;
        assert(views.take(0) =~= Seq::<(Seq<char>, SignalData)>::empty());
        assert(event_views(events@) =~= Seq::<EventView>::empty());
        assert(self.names().take(known) =~= start.names());
        while i < n
            invariant
                n == current@.len(),
                i <= n,
                views == signal_views(current@),
                signals_differ(views),
                known == start.records@.len(),
                self.wf(),
                self.records@.len() >= known,
                self.names().take(known) == start.names(),
                event_views(events@) == present_events(start, views.take(i as int)),
                forall|asset: Seq<char>| #[trigger]
                    self.memory(asset) == seen(start, views.take(i as int), now, asset),
            decreases n - i,
        {
            let signal: &Signal = &current[i];
            let ghost before = *self;
            let ghost part = views.take(i + 1);
            proof {
                assert(part.drop_last() =~= views.take(i as int));
                assert(part.last() == (signal.asset@, signal.data));
                lemma_not_before(views, i as int);
                assert(before.memory(signal.asset@) == start.memory(signal.asset@));
            }
            let prev: Option<Tier> = self.tier_of(&signal.asset);
            let same: bool = match prev {
                Some(t) => t == signal.data.tier,
                None => false,
            };
            if !same {
                self.record_change(&signal.asset, now);
                proof {
                    assert(self.names().len() >= before.names().len());
                    assert(self.names().take(known) =~= before.names().take(known));
                }
                match transition(prev, signal.data.tier) {
                    Some(kind) => {
                        let ghost told = event_views(events@);
                        events.push(make_event(&signal.asset, kind, &signal.data, prev));
                        assert(event_views(events@) =~= told.push(
                            told_event(signal.asset@, kind, signal.data, prev),
                        ));
                    },
                    None => {},
                }
            }
            assert forall|asset: Seq<char>| #[trigger]
                self.memory(asset) == seen(start, part, now, asset) by {
                assert(before.memory(asset) == seen(start, views.take(i as int), now, asset));
            }
            i = i + 1;
        }
        assert(views.take(n as int) =~= views);
        events
    }

    /// What there is to tell of the assets that have no signal any more. `start` is the state
    /// before the comparison, and `known` the number of its records.
    fn compare_lost(
        &mut self,
        current: &Vec<Signal>,
        now: u64,
        known: usize,
        Ghost(start): Ghost<AlertState>,
    ) -> (events: Vec<AlertEvent>)
        requires
            old(self).wf(),
            start.wf(),
            known == start.records@.len(),
            old(self).records@.len() >= known,
            old(self).names().take(known as int) == start.names(),
            forall|asset: Seq<char>| #[trigger]
                old(self).memory(asset) == seen(start, signal_views(current@), now, asset),
        ensures
            final(self).wf(),
            event_views(events@) == lost_events(start, signal_views(current@), start.names()),
            forall|asset: Seq<char>| #[trigger]
                final(self).memory(asset) == compared(start, signal_views(current@), now, asset),
    {
        let ghost views = signal_views(current@);
        let ghost names = start.names();
        let mut events: Vec<AlertEvent> = Vec::new();
        let mut i: usize = 0;
        assert(names.take(0) =~= Seq::<Seq<char>>::empty());
        assert(event_views(events@) =~= Seq::<EventView>::empty());
        while i < known
            invariant
                i <= known,
                start.wf(),
                known == start.records@.len(),
                self.wf(),
                self.records@.len() >= known,
                names == start.names(),
                self.names().take(known as int) == names,
                views == signal_views(current@),
                event_views(events@) == lost_events(start, views, names.take(i as int)),
                forall|asset: Seq<char>| #[trigger]
                    self.memory(asset) == half_compared(
                        start,
                        views,
                        now,
                        names.take(i as int),
                        asset,
                    ),
            decreases known - i,
        {
            let ghost before = *self;
            let ghost own = names[i as int];
            let ghost part = names.take(i + 1);
            proof {
                assert(part.drop_last() =~= names.take(i as int));
                assert(part.last() == own);
                assert(self.names().take(known as int)[i as int] == self.names()[i as int]);
                assert(self.records@[i as int].asset@ == own);
                lemma_memory(before, i as int);
                assert(start.records@[i as int].asset@ == own);
                if names.take(i as int).contains(own) {
                    let k = choose|k: int|
                        0 <= k < i && names.take(i as int)[k] == own;
                    assert(start.records@[k].asset@ == own);
                }
                assert(before.memory(own) == seen(start, views, now, own));
            }
            let tier: Option<Tier> = self.records[i].tier;
            let told: bool = match tier {
                Some(t) => trackable(t),
                None => false,
            };
            if told && !has_signal(current, &self.records[i].asset) {
                let changes = log_change(&self.records[i].changes, now);
                self.records[i].changes = changes;
                proof {
                    lemma_one_record(before, *self, i as int);
                    assert(before.names().contains(own)) by {
                        assert(before.names()[i as int] == own);
                    }
                    assert(self.names() == before.names());
                }
                let ghost so_far = event_views(events@);
                events.push(
                    AlertEvent {
                        asset: self.records[i].asset.clone(),
                        kind: AlertKind::SignalLost,
                        signal: None,
                        prev_tier: tier,
                    },
                );
                assert(event_views(events@) =~= so_far.push(
                    EventView {
                        asset: own,
                        kind: AlertKind::SignalLost,
                        signal: None,
                        prev_tier: tier,
                    },
                ));
            }
            assert forall|asset: Seq<char>| #[trigger]
                self.memory(asset) == half_compared(start, views, now, part, asset) by {
                assert(before.memory(asset) == half_compared(
                    start,
                    views,
                    now,
                    names.take(i as int),
                    asset,
                ));
                assert(part.contains(asset) <==> names.take(i as int).contains(asset) || asset
                    == own) by {
                    lemma_contains_push(names.take(i as int), part, own, asset);
                }
            }
            i = i + 1;
        }
        assert(names.take(known as int) =~= names);
        assert forall|asset: Seq<char>| #[trigger]
            self.memory(asset) == compared(start, views, now, asset) by {
            if !names.contains(asset) {
                if exists|k: int|
                    0 <= k < start.records@.len() && (#[trigger] start.records@[k]).asset@
                        == asset {
                    let k = choose|k: int|
                        0 <= k < start.records@.len() && (#[trigger] start.records@[k]).asset@
                            == asset;
                    assert(names[k] == asset);
                }
                assert(start.memory(asset) == blank());
            }
        }
        events
    }
}

/// What is known of an asset after the signals that there are were compared.
spec fn seen(
    s: AlertState,
    current: Seq<(Seq<char>, SignalData)>,
    now: u64,
    asset: Seq<char>,
) -> Memory {
    let m = s.memory(asset);
    match signal_in(current, asset) {
        Some(data) => if m.tier != Some(data.tier) {
            Memory { changes: logged(m.changes, now), ..m }
        } else {
            m
        },
        None => m,
    }
}

/// What is known of an asset after those among `names` were looked for.
spec fn half_compared(
    s: AlertState,
    current: Seq<(Seq<char>, SignalData)>,
    now: u64,
    names: Seq<Seq<char>>,
    asset: Seq<char>,
) -> Memory {
    if names.contains(asset) {
        compared(s, current, now, asset)
    } else {
        seen(s, current, now, asset)
    }
}

proof fn lemma_contains_push(
    before: Seq<Seq<char>>,
    after: Seq<Seq<char>>,
    own: Seq<char>,
    asset: Seq<char>,
)
    requires
        after.len() == before.len() + 1,
        after.drop_last() == before,
        after.last() == own,
    ensures
        after.contains(asset) <==> before.contains(asset) || asset == own,
{
    if before.contains(asset) {
        let k = choose|k: int| 0 <= k < before.len() && before[k] == asset;
        assert(after[k] == asset);
    }
    if asset == own {
        assert(after[before.len() as int] == asset);
    }
    if after.contains(asset) {
        let k = choose|k: int| 0 <= k < after.len() && after[k] == asset;
        if k < before.len() {
            assert(before[k] == asset);
        }
    }
}

/// The asset of a signal is not that of an earlier one.
proof fn lemma_not_before(current: Seq<(Seq<char>, SignalData)>, i: int)
    requires
        signals_differ(current),
        0 <= i < current.len(),
    ensures
        signal_in(current.take(i), current[i].0) is None,
{
    let part = current.take(i);
    if signal_in(part, current[i].0) is Some {
        let k = lemma_signal_in_some(part, current[i].0);
        assert(part[k] == current[k]);
        assert(current[k].0 != current[i].0);
    }
}

/// What is told of a change.
fn make_event(asset: &String, kind: AlertKind, data: &SignalData, prev: Option<Tier>) -> (e:
    AlertEvent)
    ensures
        (EventView {
            asset: e.asset@,
            kind: e.kind,
            signal: e.signal,
            prev_tier: e.prev_tier,
        }) == told_event(asset@, kind, *data, prev),
{
    AlertEvent {
        asset: asset.clone(),
        kind,
        signal: if kind == AlertKind::SignalLost {
            None
        } else {
            Some(*data)
        },
        prev_tier: if kind == AlertKind::NewSignal {
            None
        } else {
            prev
        },
    }
}

/// Whether an asset has a signal.
fn has_signal(current: &Vec<Signal>, asset: &String) -> (r: bool)
    ensures
        r == signal_in(signal_views(current@), asset@) is Some,
{
    let ghost views = signal_views(current@);
    let n: usize = current.len();
    let mut i: usize = 0;
    assert(views.take(0) =~= Seq::<(Seq<char>, SignalData)>::empty());
    let mut found: bool = false;
    while i < n
        invariant
            n == current@.len(),
            i <= n,
            views == signal_views(current@),
            found == signal_in(views.take(i as int), asset@) is Some,
        decreases n - i,
    {
        assert(views.take(i + 1).drop_last() =~= views.take(i as int));
        assert(views.take(i + 1).last() == (current@[i as int].asset@, current@[i as int].data));
        if current[i].asset == *asset {
            found = true;
        }
        i = i + 1;
    }
    assert(views.take(n as int) =~= views);
    found
}

} // verus!
