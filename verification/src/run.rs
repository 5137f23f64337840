//! What a run does with each event, and when it ends.

use std::collections::HashSet;

use vstd::prelude::*;

use crate::config::SlotRange;

verus! {

broadcast use vstd::std_specs::hash::group_hash_axioms;

/// What is to be done about an event.
#[derive(Debug, Clone, Copy, PartialEq, Eq, Structural)]
pub enum Verdict {
    /// The slots of the run are still to come, or the slot is not one that is looked at: the event
    /// is a sign of life, and no more.
    Wait,
    /// The slot to start with is past: the run is to end.
    StartMissed,
    /// The first event beyond the slots of the run: the run is to end after a while, in which what
    /// comes late is still recorded.
    EndReached,
    /// The event is beyond the slots of the run.
    Ignore,
    /// The event is a sign of life and is to be recorded.
    Record,
}

/// How far a run is in its slots.
#[derive(Debug, Clone, Copy, PartialEq, Eq, Structural)]
pub struct Progress {
    /// Whether a shred has come that is not before the slot to start with.
    pub started: bool,
    /// Whether an event has come beyond the slot to end with.
    pub ended: bool,
}

/// The slots of a run: a range, and, where the run is about one leader, the slots of that leader.
#[verifier::ext_equal]
pub struct RunSlots {
    pub range: SlotRange,
    pub led: Option<Set<u64>>,
}

impl RunSlots {
    /// Whether a slot is one that is looked at.
    pub open spec fn is_led(self, slot: u64) -> bool {
        self.led matches Some(led) ==> led.contains(slot)
    }
}

/// What becomes of an event, and of the run: of a shred, it is looked at whether the run starts
/// with it.
pub open spec fn verdict(slots: RunSlots, progress: Progress, slot: u64, shred: bool) -> (
    Verdict,
    Progress,
) {
    let range = slots.range;
    if slot < range.start {
        (Verdict::Wait, progress)
    } else if shred && !progress.started && range.start_given && slot > range.start {
        (Verdict::StartMissed, Progress { started: true, ..progress })
    } else {
        let started = progress.started || shred;
        if slot <= range.end {
            (
                if slots.is_led(slot) {
                    Verdict::Record
                } else {
                    Verdict::Wait
                },
                Progress { started, ..progress },
            )
        } else if range.limited && !progress.ended {
            (Verdict::EndReached, Progress { started, ended: true })
        } else {
            (Verdict::Ignore, Progress { started, ..progress })
        }
    }
}

/// Sorts out the events of a run.
#[derive(Debug)]
pub struct Aggregator {
    pub range: SlotRange,
    /// The slots of the leader that the run is about.
    pub led: Option<HashSet<u64>>,
    pub progress: Progress,
}

impl Aggregator {
    /// The slots of the run.
    pub open spec fn slots(&self) -> RunSlots {
        RunSlots {
            range: self.range,
            led: match self.led {
                Some(led) => Some(led@),
                None => None,
            },
        }
    }

    pub fn new(range: SlotRange, led: Option<HashSet<u64>>) -> (aggregator: Aggregator)
        ensures
            aggregator.range == range,
            aggregator.led == led,
            aggregator.progress == (Progress { started: false, ended: false }),
    {
        Aggregator { range, led, progress: Progress { started: false, ended: false } }
    }

    /// What is to be done about an event beyond the start of the range.
    fn within(&mut self, slot: u64) -> (done: Verdict)
        ensures
            final(self).slots() == old(self).slots(),
            final(self).progress.started == old(self).progress.started,
            final(self).progress.ended == (old(self).progress.ended || done is EndReached),
            done == (if slot <= old(self).range.end {
                if old(self).slots().is_led(slot) {
                    Verdict::Record
                } else {
                    Verdict::Wait
                }
            } else if old(self).range.limited && !old(self).progress.ended {
                Verdict::EndReached
            } else {
                Verdict::Ignore
            }),
    {
        if slot > self.range.end {
            if self.range.limited && !self.progress.ended {
                self.progress.ended = true;
                return Verdict::EndReached;
            }
            return Verdict::Ignore;
        }
        match &self.led {
            Some(led) => if led.contains(&slot) {
                Verdict::Record
            } else {
                Verdict::Wait
            },
            None => Verdict::Record,
        }
    }

    /// What is to be done about a shred.
    pub fn on_shred(&mut self, slot: u64) -> (done: Verdict)
        ensures
            final(self).slots() == old(self).slots(),
            (done, final(self).progress) == verdict(
                old(self).slots(),
                old(self).progress,
                slot,
                true,
            ),
    {
        if slot < self.range.start {
            return Verdict::Wait;
        }
        if !self.progress.started && self.range.start_given && slot > self.range.start {
            self.progress.started = true;
            return Verdict::StartMissed;
        }
        self.progress.started = true;
        self.within(slot)
    }

    /// What is to be done about another sign of a slot.
    pub fn on_slot_event(&mut self, slot: u64) -> (done: Verdict)
        ensures
            final(self).slots() == old(self).slots(),
            (done, final(self).progress) == verdict(
                old(self).slots(),
                old(self).progress,
                slot,
                false,
            ),
    {
        if slot < self.range.start {
            return Verdict::Wait;
        }
        self.within(slot)
    }
}

/// What a run comes to over the first `count` events: the slot of each, and whether it is a shred.
pub open spec fn progress_after(slots: RunSlots, events: Seq<(u64, bool)>, count: int) -> Progress
    decreases count,
{
    if count <= 0 {
        Progress { started: false, ended: false }
    } else {
        let (slot, shred) = events[count - 1];
        verdict(slots, progress_after(slots, events, count - 1), slot, shred).1
    }
}

/// What becomes of the event at `at`.
pub open spec fn verdict_at(slots: RunSlots, events: Seq<(u64, bool)>, at: int) -> Verdict {
    let (slot, shred) = events[at];
    verdict(slots, progress_after(slots, events, at), slot, shred).0
}

/// What is recorded is in the slots of the run, and in those of the leader that it is about.
pub proof fn lemma_recorded_in_range(slots: RunSlots, events: Seq<(u64, bool)>, at: int)
    requires
        0 <= at < events.len(),
        verdict_at(slots, events, at) is Record,
    ensures
        slots.range.start <= events[at].0 <= slots.range.end,
        slots.is_led(events[at].0),
{
}

proof fn lemma_progress_stays(slots: RunSlots, events: Seq<(u64, bool)>, from: int, to: int)
    requires
        0 <= from <= to,
    ensures
        progress_after(slots, events, from).started ==> progress_after(slots, events, to).started,
        progress_after(slots, events, from).ended ==> progress_after(slots, events, to).ended,
    decreases to - from,
{
    if from < to {
        lemma_progress_stays(slots, events, from, to - 1);
    }
}

/// A run is ended by the first event beyond its slots, and by that one only; and at most one shred
/// finds its start missed.
pub proof fn lemma_ends_once(slots: RunSlots, events: Seq<(u64, bool)>, first: int, second: int)
    requires
        0 <= first < second < events.len(),
    ensures
        verdict_at(slots, events, first) is EndReached ==> !(verdict_at(
            slots,
            events,
            second,
        ) is EndReached),
        verdict_at(slots, events, first) is StartMissed ==> !(verdict_at(
            slots,
            events,
            second,
        ) is StartMissed),
{
    lemma_progress_stays(slots, events, first + 1, second);
}

/// The slots of a run with these limits, about this leader.
pub open spec fn slots_given(
    start: Option<u64>,
    end: Option<u64>,
    led: Option<Set<u64>>,
) -> RunSlots {
    RunSlots { range: crate::config::slot_range_of(start, end), led }
}

/// Whether the event at `at` is a shred that comes too late to start with: the slot to start with
/// is given, the shred is of a later one, and no shred has come of that slot or a later one.
pub open spec fn comes_too_late(start: Option<u64>, events: Seq<(u64, bool)>, at: int) -> bool {
    &&& events[at].1
    &&& start matches Some(first) && {
        &&& first < events[at].0
        &&& forall|j: int|
            #![trigger events[j]]
            0 <= j < at && events[j].1 ==> events[j].0 < first
    }
}

/// Whether the event at `at` is beyond the slot to end with, and not before the one to start with.
pub open spec fn comes_after_end(
    start: Option<u64>,
    end: Option<u64>,
    events: Seq<(u64, bool)>,
    at: int,
) -> bool {
    &&& end matches Some(last) && last < events[at].0
    &&& start matches Some(first) ==> first <= events[at].0
}

/// How far a run is, by what has come.
proof fn lemma_progress(
    start: Option<u64>,
    end: Option<u64>,
    led: Option<Set<u64>>,
    events: Seq<(u64, bool)>,
    at: int,
)
    requires
        0 <= at <= events.len(),
    ensures
        ({
            let slots = slots_given(start, end, led);
            let progress = progress_after(slots, events, at);
            &&& progress.started <==> exists|j: int|
                #![trigger events[j]]
                0 <= j < at && events[j].1 && slots.range.start <= events[j].0
            &&& progress.ended <==> exists|j: int|
                0 <= j < at && #[trigger] comes_after_end(start, end, events, j)
                    && !comes_too_late(start, events, j)
        }),
    decreases at,
{
    let slots = slots_given(start, end, led);
    if at > 0 {
        let k = at - 1;
        lemma_progress(start, end, led, events, k);
        let before = progress_after(slots, events, k);
        let after = progress_after(slots, events, at);
        let first = slots.range.start;
        if after.started {
            if before.started {
                let j = choose|j: int|
                    #![trigger events[j]]
                    0 <= j < k && events[j].1 && first <= events[j].0;
                assert(0 <= j < at && events[j].1 && first <= events[j].0);
            } else {
                assert(events[k].1 && first <= events[k].0);
            }
        }
        assert(comes_too_late(start, events, k) <==> events[k].1 && start is Some && first
            < events[k].0 && !before.started);
        if after.ended {
            if before.ended {
                let j = choose|j: int|
                    0 <= j < k && #[trigger] comes_after_end(start, end, events, j)
                        && !comes_too_late(start, events, j);
                assert(0 <= j < at && comes_after_end(start, end, events, j));
            } else {
                assert(comes_after_end(start, end, events, k));
            }
        }
        if exists|j: int|
            0 <= j < at && #[trigger] comes_after_end(start, end, events, j) && !comes_too_late(
                start,
                events,
                j,
            ) {
            let j = choose|j: int|
                0 <= j < at && #[trigger] comes_after_end(start, end, events, j)
                    && !comes_too_late(start, events, j);
            assert(after.ended);
        }
    }
}

/// What becomes of every event. It is recorded if and only if it is of the slots that were given
/// and of those of the leader, and does not come too late to start with; the run is given up by the
/// shred that does come too late; and it is ended by the first event that is beyond the end.
pub proof fn lemma_recorded_just_in_range(
    start: Option<u64>,
    end: Option<u64>,
    led: Option<Set<u64>>,
    events: Seq<(u64, bool)>,
    at: int,
)
    requires
        0 <= at < events.len(),
    ensures
        ({
            let slot = events[at].0;
            let done = verdict_at(slots_given(start, end, led), events, at);
            let in_range = (start matches Some(first) ==> first <= slot) && (end matches Some(last)
                ==> slot <= last);
            let is_led = led matches Some(led) ==> led.contains(slot);
            let late = comes_too_late(start, events, at);
            let beyond = comes_after_end(start, end, events, at);
            &&& done is Record <==> in_range && is_led && !late
            &&& done is StartMissed <==> late
            &&& done is EndReached <==> beyond && !late && forall|j: int|
                0 <= j < at && #[trigger] comes_after_end(start, end, events, j)
                    ==> comes_too_late(start, events, j)
            &&& done is Wait <==> (start matches Some(first) && slot < first) || (in_range
                && !is_led && !late)
        }),
{
    lemma_progress(start, end, led, events, at);
    let slots = slots_given(start, end, led);
    let before = progress_after(slots, events, at);
    assert(comes_too_late(start, events, at) <==> events[at].1 && start is Some && slots.range.start
        < events[at].0 && !before.started);
}

/// Without limits on its slots a run records every event.
pub proof fn lemma_unlimited_records_all(events: Seq<(u64, bool)>, at: int)
    requires
        0 <= at < events.len(),
    ensures
        verdict_at(
            RunSlots { range: crate::config::slot_range_of(None, None), led: None },
            events,
            at,
        ) is Record,
{
}

/// Watches for silence.
#[derive(Debug)]
pub struct SilenceMonitor {
    pub timeout_secs: u64,
    pub silent_secs: u64,
}

impl SilenceMonitor {
    pub fn new(timeout_secs: u64) -> (monitor: SilenceMonitor)
        ensures
            monitor.timeout_secs == timeout_secs,
            monitor.silent_secs == 0,
    {
        SilenceMonitor { timeout_secs, silent_secs: 0 }
    }

    /// Another second has passed, in which there was a sign of life or not. Whether the run is to
    /// end.
    pub fn on_second(&mut self, alive: bool) -> (stop: bool)
        ensures
            final(self).timeout_secs == old(self).timeout_secs,
            final(self).silent_secs == silence(old(self).silent_secs as int, alive),
            stop == (!alive && final(self).silent_secs >= old(self).timeout_secs),
            stop == ends_for_silence(old(self).silent_secs as int, alive, old(self).timeout_secs),
    {
        if alive {
            self.silent_secs = 0;
            false
        } else {
            self.silent_secs = self.silent_secs.saturating_add(1);
            self.silent_secs >= self.timeout_secs
        }
    }
}

/// How many seconds there was no sign of life, after one more second.
pub open spec fn silence(before: int, alive: bool) -> int {
    if alive {
        0
    } else {
        crate::slot::saturated(before + 1, u64::MAX as int)
    }
}

/// Whether a run ends for silence after one more second.
pub open spec fn ends_for_silence(before: int, alive: bool, timeout_secs: u64) -> bool {
    !alive && silence(before, alive) >= timeout_secs
}

/// How many seconds there was no sign of life after the first `count` seconds.
pub open spec fn silence_after(seconds: Seq<bool>, count: int) -> int
    decreases count,
{
    if count <= 0 {
        0
    } else {
        silence(silence_after(seconds, count - 1), seconds[count - 1])
    }
}

/// A run that is silent for as long as the limit is found to be so, and not before.
pub proof fn lemma_silence_is_counted(seconds: Seq<bool>, count: int, span: int)
    requires
        0 <= span <= count <= seconds.len(),
        span <= u64::MAX,
        forall|i: int| count - span <= i < count ==> !#[trigger] seconds[i],
        span < count ==> seconds[count - span - 1],
    ensures
        silence_after(seconds, count) == span,
    decreases span,
{
    if span > 0 {
        lemma_silence_is_counted(seconds, count - 1, span - 1);
    } else if count > 0 {
        assert(seconds[count - 1]);
    }
}

/// A run ends for silence after a second if and only if there was no sign of life in that second
/// nor in as many before it as make up the limit.
pub proof fn lemma_stops_after_silence(seconds: Seq<bool>, count: int, timeout_secs: u64)
    requires
        0 < count <= seconds.len(),
        count <= u64::MAX,
    ensures
        ends_for_silence(
            silence_after(seconds, count - 1),
            seconds[count - 1],
            timeout_secs,
        ) <==> {
            let span = if timeout_secs == 0 {
                1
            } else {
                timeout_secs as int
            };
            &&& span <= count
            &&& forall|i: int| count - span <= i < count ==> !#[trigger] seconds[i]
        },
{
    let span = if timeout_secs == 0 {
        1
    } else {
        timeout_secs as int
    };
    lemma_silent_seconds(seconds, count);
    let silent = silence_after(seconds, count);
    if span <= count && (forall|i: int| count - span <= i < count ==> !#[trigger] seconds[i]) {
        assert(!seconds[count - 1]);
        if silent < span {
            assert(seconds[count - silent - 1]);
        }
    }
    if !seconds[count - 1] && silent >= timeout_secs {
        assert(silent >= 1) by {
            if silent == 0 {
                assert(seconds[count - 1]);
            }
        }
    }
}

proof fn lemma_silent_seconds(seconds: Seq<bool>, count: int)
    requires
        0 <= count <= seconds.len(),
        count <= u64::MAX,
    ensures
        ({
            let silent = silence_after(seconds, count);
            &&& 0 <= silent <= count
            &&& forall|i: int| count - silent <= i < count ==> !#[trigger] seconds[i]
            &&& silent < count ==> seconds[count - silent - 1]
        }),
    decreases count,
{
    if count > 0 {
        lemma_silent_seconds(seconds, count - 1);
    }
}

} // verus!
