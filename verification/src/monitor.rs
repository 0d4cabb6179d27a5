//! The alert monitor over time: the first look at the signals only remembers them, and every later
//! one tells what has changed.

use crate::alerts::{
    all_events, blank, changed, committed, compared, counted, decided, decision, event_views,
    logged, signal_in, AlertEvent, AlertState, Decision, Memory, COOLDOWN, FLIPFLOP_WINDOW,
    MUTE_DURATION,
};
use crate::signals::{signal_views, signals_differ, Signal, SignalData};
use crate::tier::Tier;
use vstd::prelude::*;

verus! {

/// The monitor between two looks.
pub struct Monitor {
    pub state: AlertState,
    /// The signals were looked at.
    pub started: bool,
}

/// What is known of an asset after a look.
pub open spec fn looked(
    before: Monitor,
    current: Seq<(Seq<char>, SignalData)>,
    now: u64,
    asset: Seq<char>,
) -> Memory {
    Memory {
        tier: committed(before.state, current, asset).tier,
        ..if before.started {
            compared(before.state, current, now, asset)
        } else {
            before.state.memory(asset)
        }
    }
}

impl Monitor {
    /// A monitor that remembers nothing.
    pub fn new() -> (r: Monitor)
        ensures
            r.state.wf(),
            !r.started,
            forall|asset: Seq<char>| #[trigger] r.state.memory(asset) == blank(),
    {
        Monitor { state: AlertState::new(), started: false }
    }

    /// A look at the signals. The first one only remembers them and gives None; every later one
    /// gives what is to be told, counts the changes and remembers the signals.
    pub fn look(&mut self, current: &Vec<Signal>, now: u64) -> (r: Option<Vec<AlertEvent>>)
        requires
            old(self).state.wf(),
            signals_differ(signal_views(current@)),
        ensures
            final(self).state.wf(),
            final(self).started,
            match r {
                Some(events) => {
                    &&& old(self).started
                    &&& event_views(events@) == all_events(
                        old(self).state,
                        signal_views(current@),
                    )
                },
                None => !old(self).started,
            },
            forall|asset: Seq<char>| #[trigger]
                final(self).state.memory(asset) == looked(
                    *old(self),
                    signal_views(current@),
                    now,
                    asset,
                ),
    {
        if self.started {
            let events = self.state.diff(current, now);
            self.state.commit(current);
            Some(events)
        } else {
            self.state.commit(current);
            self.started = true;
            None
        }
    }
}

/// What the monitor does to what it knows of one asset.
pub enum Step {
    /// A change of its tier is counted.
    Change(u64),
    /// Its tier is remembered.
    Remember(Option<Tier>),
    /// It is decided whether a message may be sent.
    Ask(u64),
    /// A message was sent.
    Sent(u64),
}

/// What is known of the asset after a step.
pub open spec fn stepped(m: Memory, step: Step) -> Memory {
    match step {
        Step::Change(now) => Memory { changes: logged(m.changes, now), ..m },
        Step::Remember(tier) => Memory { tier, ..m },
        Step::Ask(now) => decided(m, now),
        Step::Sent(now) => Memory { last_sent: Some(now), ..m },
    }
}

/// What is known of the asset after some steps.
pub open spec fn after(m: Memory, steps: Seq<Step>) -> Memory
    decreases steps.len(),
{
    if steps.len() == 0 {
        m
    } else {
        stepped(after(m, steps.drop_last()), steps.last())
    }
}

/// What a look does to what is known of an asset.
pub open spec fn look_steps(
    before: Monitor,
    current: Seq<(Seq<char>, SignalData)>,
    now: u64,
    asset: Seq<char>,
) -> Seq<Step> {
    let remember = Step::Remember(
        match signal_in(current, asset) {
            Some(data) => Some(data.tier),
            None => None,
        },
    );
    if before.started && changed(before.state, current, asset) {
        seq![Step::Change(now), remember]
    } else {
        seq![remember]
    }
}

/// A look is made of steps: at most one change is counted, and the tier is remembered.
pub proof fn a_look_is_made_of_steps(
    before: Monitor,
    current: Seq<(Seq<char>, SignalData)>,
    now: u64,
    asset: Seq<char>,
)
    ensures
        looked(before, current, now, asset) == after(
            before.state.memory(asset),
            look_steps(before, current, now, asset),
        ),
{
    reveal_with_fuel(after, 3);
    let steps = look_steps(before, current, now, asset);
    if before.started && changed(before.state, current, asset) {
        assert(steps.drop_last() =~= seq![Step::Change(now)]);
        assert(steps.drop_last().drop_last() =~= Seq::<Step>::empty());
    } else {
        assert(steps.drop_last() =~= Seq::<Step>::empty());
    }
}

/// No message is sent in these steps.
pub open spec fn nothing_sent(steps: Seq<Step>) -> bool {
    forall|i: int| 0 <= i < steps.len() ==> !(#[trigger] steps[i] is Sent)
}

/// No change is counted in these steps.
pub open spec fn nothing_changes(steps: Seq<Step>) -> bool {
    forall|i: int| 0 <= i < steps.len() ==> !(#[trigger] steps[i] is Change)
}

/// The decisions among these steps are made from `first` to `last`.
pub open spec fn asked_between(steps: Seq<Step>, first: u64, last: u64) -> bool {
    forall|i: int|
        0 <= i < steps.len() ==> ((#[trigger] steps[i]) matches Step::Ask(t) ==> first <= t <= last)
}

proof fn lemma_last_sent_stays(m: Memory, steps: Seq<Step>)
    requires
        nothing_sent(steps),
    ensures
        after(m, steps).last_sent == m.last_sent,
    decreases steps.len(),
{
    if steps.len() > 0 {
        let rest = steps.drop_last();
        assert forall|i: int| 0 <= i < rest.len() implies !(#[trigger] rest[i] is Sent) by {
            assert(rest[i] == steps[i]);
        }
        lemma_last_sent_stays(m, rest);
        assert(!(steps[steps.len() - 1] is Sent));
    }
}

/// Whatever happens after a message, no other one on the asset is sent within half an hour.
pub proof fn one_message_in_half_an_hour(m: Memory, sent: u64, steps: Seq<Step>, now: u64)
    requires
        nothing_sent(steps),
        now < sent + COOLDOWN,
    ensures
        decision(after(stepped(m, Step::Sent(sent)), steps), now) != Decision::Send,
{
    lemma_last_sent_stays(stepped(m, Step::Sent(sent)), steps);
}

proof fn lemma_mute_stays(m: Memory, steps: Seq<Step>, first: u64, last: u64)
    requires
        asked_between(steps, first, last),
        m.muted_until matches Some(until) && last < until,
    ensures
        after(m, steps).muted_until == m.muted_until,
    decreases steps.len(),
{
    if steps.len() > 0 {
        let rest = steps.drop_last();
        assert forall|i: int| 0 <= i < rest.len() implies ((#[trigger] rest[i]) matches Step::Ask(t)
            ==> first <= t <= last) by {
            assert(rest[i] == steps[i]);
        }
        lemma_mute_stays(m, rest, first, last);
        let step = steps[steps.len() - 1];
        assert(step matches Step::Ask(t) ==> first <= t <= last);
    }
}

/// Whatever happens after an asset was found unstable, it is muted for an hour.
pub proof fn an_hour_of_silence(m: Memory, found: u64, steps: Seq<Step>, now: u64)
    requires
        decision(m, found) is Unstable,
        asked_between(steps, found, now),
        found <= now < found + MUTE_DURATION <= u64::MAX,
    ensures
        decision(after(stepped(m, Step::Ask(found)), steps), now) == Decision::Muted,
{
    lemma_mute_stays(stepped(m, Step::Ask(found)), steps, found, now);
}

proof fn lemma_changes_stay(m: Memory, steps: Seq<Step>)
    requires
        nothing_changes(steps),
    ensures
        after(m, steps).changes == m.changes,
    decreases steps.len(),
{
    if steps.len() > 0 {
        let rest = steps.drop_last();
        assert forall|i: int| 0 <= i < rest.len() implies !(#[trigger] rest[i] is Change) by {
            assert(rest[i] == steps[i]);
        }
        lemma_changes_stay(m, rest);
        assert(!(steps[steps.len() - 1] is Change));
    }
}

/// A change that counts still counts with others before it.
proof fn lemma_counted_end(changes: Seq<u64>, now: u64)
    requires
        changes.len() > 0,
        changes.last() <= now,
        now - changes.last() < FLIPFLOP_WINDOW,
    ensures
        counted(changes, now) == counted(changes.drop_last(), now).push(changes.last()),
{
}

/// After three changes in ten minutes nothing is told of the asset as long as they are no older
/// than that, whatever happens in between.
pub proof fn three_changes_in_ten_minutes(
    m: Memory,
    first: u64,
    meanwhile: Seq<Step>,
    second: u64,
    later_on: Seq<Step>,
    third: u64,
    at_last: Seq<Step>,
    now: u64,
)
    requires
        first <= second <= third <= now,
        now - first < FLIPFLOP_WINDOW,
        nothing_changes(meanwhile),
        nothing_changes(later_on),
        nothing_changes(at_last),
    ensures
        ({
            let m1 = after(stepped(m, Step::Change(first)), meanwhile);
            let m2 = after(stepped(m1, Step::Change(second)), later_on);
            let m3 = after(stepped(m2, Step::Change(third)), at_last);
            decision(m3, now) != Decision::Send
        }),
{
    let m1 = after(stepped(m, Step::Change(first)), meanwhile);
    lemma_changes_stay(stepped(m, Step::Change(first)), meanwhile);
    let m2 = after(stepped(m1, Step::Change(second)), later_on);
    lemma_changes_stay(stepped(m1, Step::Change(second)), later_on);
    let m3 = after(stepped(m2, Step::Change(third)), at_last);
    lemma_changes_stay(stepped(m2, Step::Change(third)), at_last);
    let c1 = m1.changes;
    let c2 = m2.changes;
    let c3 = m3.changes;
    assert(c1.last() == first);
    lemma_counted_end(c1, second);
    assert(c2.drop_last() =~= counted(c1, second));
    let d2 = c2.drop_last();
    assert(d2.last() == first);
    lemma_counted_end(c2, third);
    lemma_counted_end(d2, third);
    let d3 = c3.drop_last();
    assert(d3 =~= counted(c2, third));
    assert(d3.last() == second);
    let e3 = d3.drop_last();
    assert(e3 =~= counted(d2, third));
    assert(e3.last() == first);
    lemma_counted_end(c3, now);
    lemma_counted_end(d3, now);
    lemma_counted_end(e3, now);
}

/// A message on an asset keeps back every other one on it for half an hour, and none on any
/// other asset.
pub proof fn a_message_silences_its_asset_alone(
    before: AlertState,
    sent: AlertState,
    asset: Seq<char>,
    at: u64,
    other: Seq<char>,
    now: u64,
)
    requires
        sent.updated(before, asset, stepped(before.memory(asset), Step::Sent(at))),
        other != asset,
    ensures
        at <= now < at + COOLDOWN ==> decision(sent.memory(asset), now) != Decision::Send,
        decision(sent.memory(other), now) == decision(before.memory(other), now),
        decided(sent.memory(other), now) == decided(before.memory(other), now),
{
}

} // verus!
