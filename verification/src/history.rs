//! What a registry says of a run, told by what happened in it and by nothing else.

use vstd::prelude::*;

use crate::registry::{
    self, GrpcLatencyEvent, RegistryView, ShredRecordView, SlotEvent, SlotRecordView, SourceId,
};
use crate::shred::ShredKey;

verus! {

/// Something that is recorded.
pub enum Happening {
    /// A shred came from a source.
    Shred { key: ShredKey, source: SourceId, at: u64 },
    /// A source gave a sign of a slot.
    Sign { slot: u64, source: SourceId, at: u64 },
    /// An account update of a source took so long.
    Update { source: SourceId, latency_ns: u64 },
}

/// What is recorded of the first `count` happenings.
pub open spec fn recorded(happenings: Seq<Happening>, count: int) -> RegistryView
    decreases count,
{
    if count <= 0 {
        RegistryView::empty()
    } else {
        let before = recorded(happenings, count - 1);
        match happenings[count - 1] {
            Happening::Shred { key, source, at } => before.with_shred(key, source, at),
            Happening::Sign { slot, source, at } => before.with_slot_event(
                SlotEvent { source, slot, received_at: at },
            ),
            Happening::Update { source, latency_ns } => before.with_grpc_latency(
                GrpcLatencyEvent { source, latency_ns },
            ),
        }
    }
}

/// The arrivals of a shred among the first `count` happenings, in their order.
pub open spec fn arrivals_of(happenings: Seq<Happening>, count: int, wanted: ShredKey) -> Seq<
    (SourceId, u64),
>
    decreases count,
{
    if count <= 0 {
        Seq::empty()
    } else {
        let before = arrivals_of(happenings, count - 1, wanted);
        match happenings[count - 1] {
            Happening::Shred { key, source, at } if key == wanted => before.push((source, at)),
            _ => before,
        }
    }
}

/// How long the account updates of a source took, among the first `count` happenings.
pub open spec fn updates_of(happenings: Seq<Happening>, count: int, wanted: SourceId) -> Seq<u64>
    decreases count,
{
    if count <= 0 {
        Seq::empty()
    } else {
        let before = updates_of(happenings, count - 1, wanted);
        match happenings[count - 1] {
            Happening::Update { source, latency_ns } if source == wanted => before.push(latency_ns),
            _ => before,
        }
    }
}

/// Whether a record tells these arrivals: all of them, the earliest time, and the source that was
/// the first to deliver at that time.
pub open spec fn tells(record: ShredRecordView, arrivals: Seq<(SourceId, u64)>) -> bool {
    &&& record.arrivals == arrivals
    &&& forall|i: int| 0 <= i < arrivals.len() ==> record.first_seen <= (#[trigger] arrivals[i]).1
    &&& exists|i: int|
        {
            &&& 0 <= i < arrivals.len()
            &&& #[trigger] arrivals[i] == (record.first_source, record.first_seen)
            &&& forall|j: int|
                #![trigger arrivals[j]]
                0 <= j < i ==> record.first_seen < arrivals[j].1
        }
}

/// Each shred has a record of its own, which tells its arrivals from all sources; a shred that never
/// came has none.
pub proof fn lemma_shreds_are_recorded(happenings: Seq<Happening>, count: int, key: ShredKey)
    requires
        0 <= count <= happenings.len(),
    ensures
        ({
            let shreds = recorded(happenings, count).shreds;
            let arrivals = arrivals_of(happenings, count, key);
            let code = registry::key_code(key);
            &&& shreds.contains_key(code) <==> arrivals.len() > 0
            &&& arrivals.len() > 0 ==> tells(shreds[code], arrivals)
        }),
    decreases count,
{
    if count > 0 {
        lemma_shreds_are_recorded(happenings, count - 1, key);
        let code = registry::key_code(key);
        let before = recorded(happenings, count - 1).shreds;
        let after = recorded(happenings, count).shreds;
        let fewer = arrivals_of(happenings, count - 1, key);
        let arrivals = arrivals_of(happenings, count, key);
        if let Happening::Shred { key: other, source, at } = happenings[count - 1] {
            assert(registry::key_code(other) == code <==> other == key);
            if other == key {
                let record = after[code];
                if fewer.len() == 0 {
                    assert(arrivals =~= seq![(source, at)]);
                    assert(arrivals[0] == (record.first_source, record.first_seen));
                } else {
                    let old_one = before[code];
                    let i = choose|i: int|
                        {
                            &&& 0 <= i < fewer.len()
                            &&& #[trigger] fewer[i] == (old_one.first_source, old_one.first_seen)
                            &&& forall|j: int|
                                #![trigger fewer[j]]
                                0 <= j < i ==> old_one.first_seen < fewer[j].1
                        };
                    assert forall|j: int| 0 <= j < fewer.len() implies #[trigger] arrivals[j]
                        == fewer[j] by {}
                    let last = fewer.len() as int;
                    assert(arrivals[last] == (source, at));
                    if at < old_one.first_seen {
                        assert(arrivals[last] == (record.first_source, record.first_seen));
                    } else {
                        assert(arrivals[i] == (record.first_source, record.first_seen));
                    }
                }
            }
        }
    }
}

/// The account updates of each source are recorded in their order, apart from those of others.
pub proof fn lemma_updates_are_recorded(happenings: Seq<Happening>, count: int, source: SourceId)
    requires
        0 <= count <= happenings.len(),
    ensures
        ({
            let lists = recorded(happenings, count).grpc_latencies;
            let updates = updates_of(happenings, count, source);
            let code = registry::source_code(source);
            &&& lists.contains_key(code) <==> updates.len() > 0
            &&& updates.len() > 0 ==> lists[code] == updates
        }),
    decreases count,
{
    if count > 0 {
        lemma_updates_are_recorded(happenings, count - 1, source);
        if let Happening::Update { source: other, latency_ns } = happenings[count - 1] {
            assert(registry::source_code(other) == registry::source_code(source) <==> other
                == source);
            if other == source {
                assert(updates_of(happenings, count, source) =~= updates_of(
                    happenings,
                    count - 1,
                    source,
                ).push(latency_ns));
                if updates_of(happenings, count - 1, source).len() == 0 {
                    assert(updates_of(happenings, count, source) =~= seq![latency_ns]);
                }
            }
        }
    }
}

/// What happened in a slot among the first `count` happenings: of each the source, where it is no
/// shred, and the time.
pub open spec fn slot_events(happenings: Seq<Happening>, count: int, wanted: u64) -> Seq<
    (Option<SourceId>, u64),
>
    decreases count,
{
    if count <= 0 {
        Seq::empty()
    } else {
        let before = slot_events(happenings, count - 1, wanted);
        match happenings[count - 1] {
            Happening::Shred { key, source, at } if key.slot == wanted => before.push((None, at)),
            Happening::Sign { slot, source, at } if slot == wanted => before.push(
                (Some(source), at),
            ),
            _ => before,
        }
    }
}

/// What a slot comes to depends on no later event.
proof fn lemma_slot_prefix(
    a: Seq<(Option<SourceId>, u64)>,
    b: Seq<(Option<SourceId>, u64)>,
    count: int,
)
    requires
        1 <= count <= a.len(),
        count <= b.len(),
        forall|i: int| 0 <= i < count ==> a[i] == b[i],
    ensures
        registry::slot_after(a, count) == registry::slot_after(b, count),
    decreases count,
{
    if count > 1 {
        lemma_slot_prefix(a, b, count - 1);
    }
}

/// Each slot has a record of its own, of what happened in it and in no other slot.
proof fn lemma_slots_are_apart(happenings: Seq<Happening>, count: int, slot: u64)
    requires
        0 <= count <= happenings.len(),
    ensures
        ({
            let slots = recorded(happenings, count).slots;
            let events = slot_events(happenings, count, slot);
            &&& slots.contains_key(slot) <==> events.len() > 0
            &&& events.len() > 0 ==> slots[slot] == registry::slot_after(
                events,
                events.len() as int,
            )
        }),
    decreases count,
{
    if count > 0 {
        lemma_slots_are_apart(happenings, count - 1, slot);
        let fewer = slot_events(happenings, count - 1, slot);
        let events = slot_events(happenings, count, slot);
        if fewer.len() > 0 && events.len() > fewer.len() {
            lemma_slot_prefix(fewer, events, fewer.len() as int);
        }
    }
}

/// Whether a record of a slot tells the signs that sources gave of it: a source that gave any has
/// one arrival, at the time of the earliest, and no other source has an arrival.
pub open spec fn tells_signs(
    record: SlotRecordView,
    events: Seq<(Option<SourceId>, u64)>,
    source: SourceId,
) -> bool {
    let arrivals = record.entry_arrivals;
    &&& forall|i: int, j: int|
        #![trigger arrivals[i], arrivals[j]]
        0 <= i < j < arrivals.len() ==> arrivals[i].0 != arrivals[j].0
    &&& forall|k: int|
        #![trigger arrivals[k]]
        0 <= k < arrivals.len() && arrivals[k].0 == source ==> {
            &&& exists|i: int|
                0 <= i < events.len() && #[trigger] events[i] == (Some(source), arrivals[k].1)
            &&& forall|i: int|
                #![trigger events[i]]
                0 <= i < events.len() && events[i].0 == Some(source) ==> arrivals[k].1
                    <= events[i].1
        }
    &&& forall|i: int|
        #![trigger events[i]]
        0 <= i < events.len() && events[i].0 == Some(source) ==> exists|k: int|
            0 <= k < arrivals.len() && (#[trigger] arrivals[k]).0 == source
}

proof fn lemma_signs(events: Seq<(Option<SourceId>, u64)>, count: int, source: SourceId)
    requires
        1 <= count <= events.len(),
    ensures
        tells_signs(registry::slot_after(events, count), events.take(count), source),
    decreases count,
{
    let now = events.take(count);
    let after = registry::slot_after(events, count).entry_arrivals;
    let (sign, at) = events[count - 1];
    assert(now[count - 1] == (sign, at));
    if count == 1 {
        if sign is Some {
            assert(after[0] == (sign->0, at));
        }
    } else {
        lemma_signs(events, count - 1, source);
        let was = events.take(count - 1);
        let record = registry::slot_after(events, count - 1);
        let before = record.entry_arrivals;
        assert forall|i: int| 0 <= i < was.len() implies #[trigger] now[i] == was[i] by {}
        match sign {
            None => {
                assert(after == before);
                assert forall|k: int|
                    #![trigger after[k]]
                    0 <= k < after.len() && after[k].0 == source implies exists|i: int|
                    0 <= i < now.len() && #[trigger] now[i] == (Some(source), after[k].1) by {
                    let i = choose|i: int|
                        0 <= i < was.len() && #[trigger] was[i] == (Some(source), before[k].1);
                    assert(now[i] == was[i]);
                }
            },
            Some(from) => {
                assert(now =~= was.push((Some(from), at)));
                lemma_sign_added(record, was, now, from, at, source);
            },
        }
    }
}

proof fn lemma_sign_added(
    record: SlotRecordView,
    was: Seq<(Option<SourceId>, u64)>,
    now: Seq<(Option<SourceId>, u64)>,
    from: SourceId,
    at: u64,
    source: SourceId,
)
    requires
        now == was.push((Some(from), at)),
        tells_signs(record, was, source),
    ensures
        tells_signs(record.with_event(from, at), now, source),
{
    let before = record.entry_arrivals;
    let after = record.with_event(from, at).entry_arrivals;
    let n = was.len() as int;
    assert(now[n] == (Some(from), at));
    assert forall|i: int| 0 <= i < n implies #[trigger] now[i] == was[i] by {}
    match registry::arrival_of(before, from) {
        Some(p) => {
            assert(registry::is_arrival_of(before, from, p));
            assert forall|k: int| 0 <= k < after.len() implies (#[trigger] after[k]).0
                == before[k].0 && (k != p ==> after[k] == before[k]) by {}
            assert(after[p].0 == from);
        },
        None => {
            assert(after == before.push((from, at)));
            assert forall|k: int| 0 <= k < before.len() implies (#[trigger] before[k]).0
                != from by {
                if before[k].0 == from {
                    registry::lemma_first_arrival(before, from, k);
                }
            }
            assert(after[before.len() as int] == (from, at));
            assert forall|k: int| 0 <= k < before.len() implies #[trigger] after[k]
                == before[k] by {}
        },
    }
    assert forall|k: int|
        #![trigger after[k]]
        0 <= k < after.len() && after[k].0 == source implies {
        &&& exists|i: int| 0 <= i < now.len() && #[trigger] now[i] == (Some(source), after[k].1)
        &&& forall|i: int|
            #![trigger now[i]]
            0 <= i < now.len() && now[i].0 == Some(source) ==> after[k].1 <= now[i].1
    } by {
        if k < before.len() && after[k] == before[k] {
            let i = choose|i: int|
                0 <= i < was.len() && #[trigger] was[i] == (Some(source), before[k].1);
            assert(now[i] == was[i]);
            if from == source {
                assert(registry::arrival_of(before, from) == Some(k)) by {
                    registry::lemma_first_arrival(before, from, k);
                    let p = registry::arrival_of(before, from)->0;
                    assert(registry::is_arrival_of(before, from, p));
                    if p != k {
                        assert(before[p].0 != before[k].0);
                    }
                }
            }
        } else {
            assert(after[k] == (from, at));
            assert(now[n] == (Some(source), after[k].1));
            if k < before.len() {
                assert(before[k].0 == source);
            }
        }
    }
    assert forall|i: int|
        #![trigger now[i]]
        0 <= i < now.len() && now[i].0 == Some(source) implies exists|k: int|
        0 <= k < after.len() && (#[trigger] after[k]).0 == source by {
        if i < n {
            let k = choose|k: int| 0 <= k < before.len() && (#[trigger] before[k]).0 == source;
            assert(after[k].0 == source);
        } else {
            match registry::arrival_of(before, from) {
                Some(p) => {
                    assert(after[p].0 == source);
                },
                None => {
                    assert(after[before.len() as int].0 == source);
                },
            }
        }
    }
}

/// Each slot has a record of its own, if anything happened in it. Its first shred is the earliest
/// of its shreds, or, where there is none, at the time of the first sign of it; and of each source
/// it has the earliest sign.
pub proof fn lemma_slots_are_recorded(
    happenings: Seq<Happening>,
    count: int,
    slot: u64,
    source: SourceId,
)
    requires
        0 <= count <= happenings.len(),
    ensures
        ({
            let slots = recorded(happenings, count).slots;
            let events = slot_events(happenings, count, slot);
            &&& slots.contains_key(slot) <==> events.len() > 0
            &&& events.len() > 0 ==> {
                let record = slots[slot];
                &&& tells_signs(record, events, source)
                &&& if exists|i: int| 0 <= i < events.len() && (#[trigger] events[i]).0 is None {
                    &&& exists|i: int|
                        0 <= i < events.len() && #[trigger] events[i] == (
                            None::<SourceId>,
                            record.first_shred_at,
                        )
                    &&& forall|i: int|
                        #![trigger events[i]]
                        0 <= i < events.len() && events[i].0 is None ==> record.first_shred_at
                            <= events[i].1
                } else {
                    record.first_shred_at == events[0].1
                }
            }
        }),
{
    lemma_slots_are_apart(happenings, count, slot);
    let events = slot_events(happenings, count, slot);
    if events.len() > 0 {
        let n = events.len() as int;
        assert(events.take(n) =~= events);
        lemma_signs(events, n, source);
        registry::lemma_first_shred_is_earliest(events, n);
        lemma_stand_in(events, n);
        let record = registry::slot_after(events, n);
        if record.shred_seen {
            let i = choose|i: int|
                0 <= i < n && (#[trigger] events[i]).0 is None && events[i].1
                    == record.first_shred_at;
            assert(events[i] == (None::<SourceId>, record.first_shred_at));
        }
    }
}

/// Until a shred has come, the first sign stands in for it.
proof fn lemma_stand_in(events: Seq<(Option<SourceId>, u64)>, count: int)
    requires
        1 <= count <= events.len(),
    ensures
        !registry::slot_after(events, count).shred_seen ==> registry::slot_after(
            events,
            count,
        ).first_shred_at == events[0].1,
    decreases count,
{
    if count > 1 {
        lemma_stand_in(events, count - 1);
    }
}

} // verus!
