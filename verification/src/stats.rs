//! What the recorded arrivals amount to, source by source.

use vstd::prelude::*;

use crate::blocks::{self, BlockStats};
use crate::keys;
use crate::registry::{self, ReconstructionEvent, Registry, ShredRecord, SlotRecord, SourceId};
use crate::slot;

pub use crate::percentiles::{compute_percentiles, percentile, Percentiles};

verus! {

/// Whether an arrival is from one source.
pub open spec fn is_from(source: SourceId) -> spec_fn((SourceId, u64)) -> bool {
    |arrival: (SourceId, u64)| arrival.0 == source
}

/// The arrivals that are from one source.
pub open spec fn arrivals_from(arrivals: Seq<(SourceId, u64)>, source: SourceId) -> Seq<
    (SourceId, u64),
> {
    arrivals.filter(is_from(source))
}

/// The earliest of arrivals, of which there is one at least.
pub open spec fn earliest(arrivals: Seq<(SourceId, u64)>) -> u64
    decreases arrivals.len(),
{
    if arrivals.len() <= 1 {
        arrivals[0].1
    } else {
        let before = earliest(arrivals.drop_last());
        if arrivals.last().1 < before {
            arrivals.last().1
        } else {
            before
        }
    }
}

/// The time between two moments: none where the second is not later.
pub open spec fn since(at: u64, start: u64) -> u64 {
    if at >= start {
        (at - start) as u64
    } else {
        0
    }
}

/// Whether a source delivered a shred.
pub open spec fn heard(record: registry::ShredRecordView, source: SourceId) -> bool {
    arrivals_from(record.arrivals, source).len() > 0
}

/// How long after its first sight a shred came from a source.
pub open spec fn delta(record: registry::ShredRecordView, source: SourceId) -> u64 {
    since(earliest(arrivals_from(record.arrivals, source)), record.first_seen)
}

/// How often a source delivered a shred again.
pub open spec fn repeats(record: registry::ShredRecordView, source: SourceId) -> nat {
    if heard(record, source) {
        (arrivals_from(record.arrivals, source).len() - 1) as nat
    } else {
        0
    }
}

/// Looks for the arrivals from one source: how many there are, and the earliest.
pub fn look_for(arrivals: &Vec<(SourceId, u64)>, source: SourceId) -> (found: (usize, u64))
    ensures
        found.0 == arrivals_from(arrivals@, source).len(),
        found.0 > 0 ==> found.1 == earliest(arrivals_from(arrivals@, source)),
{
    let mut count: usize = 0;
    let mut first: u64 = 0;
    let mut n: usize = 0;
    while n < arrivals.len()
        invariant
            n <= arrivals@.len(),
            count <= n,
            count == arrivals_from(arrivals@.take(n as int), source).len(),
            count > 0 ==> first == earliest(arrivals_from(arrivals@.take(n as int), source)),
        decreases arrivals@.len() - n,
    {
        proof {
            reveal(Seq::filter);
            assert(arrivals@.take(n + 1).drop_last() =~= arrivals@.take(n as int));
            let before = arrivals_from(arrivals@.take(n as int), source);
            assert(before.push(arrivals@[n as int]).drop_last() =~= before);
        }
        let (from, at): (SourceId, u64) = arrivals[n];
        if from == source {
            if count == 0 || at < first {
                first = at;
            }
            count = count + 1;
        }
        n = n + 1;
    }
    assert(arrivals@.take(n as int) =~= arrivals@);
    (count, first)
}

/// What a source that delivers shreds amounts to.
#[verifier::ext_equal]
pub struct SourceStatsView {
    pub id: SourceId,
    pub name: Seq<char>,
    pub received: nat,
    pub data_shreds: nat,
    pub code_shreds: nat,
    pub wins: nat,
    pub missed: nat,
    pub dupes: nat,
    pub latency_ns: Seq<u64>,
}

/// The shreds that a source delivered.
pub open spec fn delivered(
    shreds: Map<(u64, u32, bool), registry::ShredRecordView>,
    source: SourceId,
) -> spec_fn((u64, u32, bool)) -> bool {
    |key: (u64, u32, bool)| heard(shreds[key], source)
}

/// The data shreds, or the code shreds, that a source delivered.
pub open spec fn delivered_kind(
    shreds: Map<(u64, u32, bool), registry::ShredRecordView>,
    source: SourceId,
    data: bool,
) -> spec_fn((u64, u32, bool)) -> bool {
    |key: (u64, u32, bool)| heard(shreds[key], source) && key.2 == data
}

/// The shreds that a source delivered before any other, or at the same time.
pub open spec fn won(
    shreds: Map<(u64, u32, bool), registry::ShredRecordView>,
    source: SourceId,
) -> spec_fn((u64, u32, bool)) -> bool {
    |key: (u64, u32, bool)| heard(shreds[key], source) && delta(shreds[key], source) == 0
}

/// The shreds that a source did not deliver.
pub open spec fn lacking(
    shreds: Map<(u64, u32, bool), registry::ShredRecordView>,
    source: SourceId,
) -> spec_fn((u64, u32, bool)) -> bool {
    |key: (u64, u32, bool)| !heard(shreds[key], source)
}

/// How often a source delivered any of the shreds again.
pub open spec fn all_repeats(
    list: Seq<(u64, u32, bool)>,
    shreds: Map<(u64, u32, bool), registry::ShredRecordView>,
    source: SourceId,
) -> nat
    decreases list.len(),
{
    if list.len() == 0 {
        0
    } else {
        all_repeats(list.drop_last(), shreds, source) + repeats(shreds[list.last()], source)
    }
}

/// What a source amounts to over the shreds in `list`.
pub open spec fn source_stats(
    list: Seq<(u64, u32, bool)>,
    shreds: Map<(u64, u32, bool), registry::ShredRecordView>,
    id: SourceId,
    name: Seq<char>,
) -> SourceStatsView {
    SourceStatsView {
        id,
        name,
        received: list.filter(delivered(shreds, id)).len(),
        data_shreds: list.filter(delivered_kind(shreds, id, true)).len(),
        code_shreds: list.filter(delivered_kind(shreds, id, false)).len(),
        wins: list.filter(won(shreds, id)).len(),
        missed: list.filter(lacking(shreds, id)).len(),
        dupes: slot::saturated(all_repeats(list, shreds, id) as int, u64::MAX as int) as nat,
        latency_ns: list.filter(delivered(shreds, id)).map_values(
            |key: (u64, u32, bool)| delta(shreds[key], id),
        ),
    }
}

impl SourceStatsView {
    pub open spec fn empty(id: SourceId, name: Seq<char>) -> SourceStatsView {
        SourceStatsView {
            id,
            name,
            received: 0,
            data_shreds: 0,
            code_shreds: 0,
            wins: 0,
            missed: 0,
            dupes: 0,
            latency_ns: Seq::empty(),
        }
    }

    /// With one more shred.
    pub open spec fn with(self, data: bool, record: registry::ShredRecordView) -> SourceStatsView {
        if !heard(record, self.id) {
            SourceStatsView { missed: self.missed + 1, ..self }
        } else {
            let delta = delta(record, self.id);
            SourceStatsView {
                received: self.received + 1,
                data_shreds: self.data_shreds + if data {
                    1nat
                } else {
                    0nat
                },
                code_shreds: self.code_shreds + if data {
                    0nat
                } else {
                    1nat
                },
                wins: self.wins + if delta == 0 {
                    1nat
                } else {
                    0nat
                },
                dupes: slot::saturated(
                    (self.dupes + repeats(record, self.id)) as int,
                    u64::MAX as int,
                ) as nat,
                latency_ns: self.latency_ns.push(delta),
                ..self
            }
        }
    }
}

/// The first `n + 1` of a list, filtered.
pub(crate) proof fn lemma_filter_next<A>(list: Seq<A>, n: int, keep: spec_fn(A) -> bool)
    requires
        0 <= n < list.len(),
    ensures
        list.take(n + 1).filter(keep) == (if keep(list[n]) {
            list.take(n).filter(keep).push(list[n])
        } else {
            list.take(n).filter(keep)
        }),
        list.take(n).filter(keep).len() <= n,
{
    reveal(Seq::filter);
    assert(list.take(n + 1).drop_last() =~= list.take(n));
    list.take(n).lemma_filter_len(keep);
}

/// One more shred in the list is one more in what the source amounts to.
proof fn lemma_source_stats_next(
    list: Seq<(u64, u32, bool)>,
    n: int,
    shreds: Map<(u64, u32, bool), registry::ShredRecordView>,
    id: SourceId,
    name: Seq<char>,
)
    requires
        0 <= n < list.len(),
    ensures
        source_stats(list.take(n + 1), shreds, id, name) == source_stats(
            list.take(n),
            shreds,
            id,
            name,
        ).with(list[n].2, shreds[list[n]]),
        source_stats(list.take(n), shreds, id, name).received <= n,
        source_stats(list.take(n), shreds, id, name).data_shreds <= n,
        source_stats(list.take(n), shreds, id, name).code_shreds <= n,
        source_stats(list.take(n), shreds, id, name).wins <= n,
        source_stats(list.take(n), shreds, id, name).missed <= n,
{
    lemma_filter_next(list, n, delivered(shreds, id));
    lemma_filter_next(list, n, delivered_kind(shreds, id, true));
    lemma_filter_next(list, n, delivered_kind(shreds, id, false));
    lemma_filter_next(list, n, won(shreds, id));
    lemma_filter_next(list, n, lacking(shreds, id));
    assert(list.take(n + 1).drop_last() =~= list.take(n));
    assert(source_stats(list.take(n + 1), shreds, id, name).latency_ns =~= source_stats(
        list.take(n),
        shreds,
        id,
        name,
    ).with(list[n].2, shreds[list[n]]).latency_ns);
}

/// A source that delivers shreds.
#[derive(Debug)]
pub struct SourceStats {
    pub id: SourceId,
    pub name: String,
    pub received: u64,
    pub data_shreds: u64,
    pub code_shreds: u64,
    /// How many shreds came first from this source.
    pub wins: u64,
    pub missed: u64,
    pub dupes: u64,
    /// How long after its first sight each shred came from this source.
    pub latency_ns: Vec<u64>,
}

impl View for SourceStats {
    type V = SourceStatsView;

    open spec fn view(&self) -> SourceStatsView {
        SourceStatsView {
            id: self.id,
            name: self.name@,
            received: self.received as nat,
            data_shreds: self.data_shreds as nat,
            code_shreds: self.code_shreds as nat,
            wins: self.wins as nat,
            missed: self.missed as nat,
            dupes: self.dupes as nat,
            latency_ns: self.latency_ns@,
        }
    }
}

impl Default for SourceStats {
    fn default() -> (stats: Self)
        ensures
            stats@ == SourceStatsView::empty(SourceId::RawUdp, Seq::empty()),
    {
        SourceStats::new(SourceId::default(), String::new())
    }
}

impl SourceStats {
    pub fn new(id: SourceId, name: String) -> (stats: SourceStats)
        ensures
            stats@ == SourceStatsView::empty(id, name@),
    {
        SourceStats {
            id,
            name,
            received: 0,
            data_shreds: 0,
            code_shreds: 0,
            wins: 0,
            missed: 0,
            dupes: 0,
            latency_ns: Vec::new(),
        }
    }

    /// Takes in one more shred.
    pub fn note(&mut self, data: bool, record: &ShredRecord)
        requires
            old(self).received < u64::MAX,
            old(self).data_shreds < u64::MAX,
            old(self).code_shreds < u64::MAX,
            old(self).wins < u64::MAX,
            old(self).missed < u64::MAX,
        ensures
            final(self)@ == old(self)@.with(data, record@),
    {
        let (count, first): (usize, u64) = look_for(&record.arrivals, self.id);
        if count == 0 {
            self.missed = self.missed + 1;
            return;
        }
        self.received = self.received + 1;
        if data {
            self.data_shreds = self.data_shreds + 1;
        } else {
            self.code_shreds = self.code_shreds + 1;
        }
        self.dupes = self.dupes.saturating_add((count - 1) as u64);
        let delta: u64 = first.saturating_sub(record.first_seen);
        if delta == 0 {
            self.wins = self.wins + 1;
        }
        self.latency_ns.push(delta);
    }
}

/// Sources as they are at the start.
fn new_sources(active: &[(SourceId, String)]) -> (sources: Vec<SourceStats>)
    ensures
        sources@.len() == active@.len(),
        forall|i: int|
            0 <= i < sources@.len() ==> (#[trigger] sources@[i])@ == SourceStatsView::empty(
                active@[i].0,
                active@[i].1@,
            ),
{
    let mut sources: Vec<SourceStats> = Vec::new();
    let mut n: usize = 0;
    while n < active.len()
        invariant
            n <= active@.len(),
            sources@.len() == n,
            forall|i: int|
                0 <= i < sources@.len() ==> (#[trigger] sources@[i])@ == SourceStatsView::empty(
                    active@[i].0,
                    active@[i].1@,
                ),
        decreases active@.len() - n,
    {
        sources.push(SourceStats::new(active[n].0, active[n].1.clone()));
        n = n + 1;
    }
    sources
}

/// What the sources amount to over the shreds of a registry.
pub open spec fn shred_stats(
    sources: Seq<SourceStats>,
    active: Seq<(SourceId, String)>,
    list: Seq<(u64, u32, bool)>,
    shreds: Map<(u64, u32, bool), registry::ShredRecordView>,
) -> bool {
    &&& sources.len() == active.len()
    &&& forall|i: int|
        0 <= i < sources.len() ==> (#[trigger] sources[i])@ == source_stats(
            list,
            shreds,
            active[i].0,
            active[i].1@,
        )
}

/// Tallies the shreds in `list` for each source.
fn tally_shreds(
    registry: &Registry,
    list: &Vec<(u64, u32, bool)>,
    active: &[(SourceId, String)],
) -> (sources: Vec<SourceStats>)
    requires
        keys::lists_keys(list@, registry@.shreds),
    ensures
        shred_stats(sources@, active@, list@, registry@.shreds),
{
    let mut sources: Vec<SourceStats> = new_sources(active);
    let ghost shreds = registry@.shreds;
    let mut n: usize = 0;
    assert forall|i: int| 0 <= i < sources@.len() implies (#[trigger] sources@[i])@ == source_stats(
        list@.take(0),
        shreds,
        active@[i].0,
        active@[i].1@,
    ) by {
        reveal(Seq::filter);
        assert(list@.take(0) =~= Seq::empty());
        assert(sources@[i]@.latency_ns =~= source_stats(
            list@.take(0),
            shreds,
            active@[i].0,
            active@[i].1@,
        ).latency_ns);
    }
    while n < list.len()
        invariant
            n <= list@.len(),
            shreds == registry@.shreds,
            keys::lists_keys(list@, shreds),
            shred_stats(sources@, active@, list@.take(n as int), shreds),
        decreases list@.len() - n,
    {
        let key: (u64, u32, bool) = list[n];
        assert(list@.contains(key));
        if let Some(record) = registry.shred_record(key) {
            let mut i: usize = 0;
            while i < sources.len()
                invariant
                    i <= sources@.len(),
                    n < list.len(),
                    key == list@[n as int],
                    record@ == shreds[key],
                    sources@.len() == active@.len(),
                    forall|j: int|
                        0 <= j < i ==> (#[trigger] sources@[j])@ == source_stats(
                            list@.take(n + 1),
                            shreds,
                            active@[j].0,
                            active@[j].1@,
                        ),
                    forall|j: int|
                        i <= j < sources@.len() ==> (#[trigger] sources@[j])@ == source_stats(
                            list@.take(n as int),
                            shreds,
                            active@[j].0,
                            active@[j].1@,
                        ),
                decreases sources@.len() - i,
            {
                proof {
                    lemma_source_stats_next(
                        list@,
                        n as int,
                        shreds,
                        active@[i as int].0,
                        active@[i as int].1@,
                    );
                    let before = sources@[i as int]@;
                    assert(before.received <= n && before.data_shreds <= n && before.code_shreds
                        <= n && before.wins <= n && before.missed <= n);
                }
                sources[i].note(key.2, &record);
                i = i + 1;
            }
        }
        n = n + 1;
    }
    assert(list@.take(n as int) =~= list@);
    sources
}

/// What a source that does not deliver shreds amounts to.
#[verifier::ext_equal]
pub struct EntrySourceStatsView {
    pub id: SourceId,
    pub name: Seq<char>,
    pub slots_seen: nat,
    pub latency_ns: Seq<u64>,
}

/// The slots that a source gave a sign of.
pub open spec fn signalled(slots: Map<u64, registry::SlotRecordView>, source: SourceId) -> spec_fn(
    u64,
) -> bool {
    |slot: u64| registry::arrival_of(slots[slot].entry_arrivals, source) is Some
}

/// How long after the first shred of a slot the source gave a sign of it.
pub open spec fn entry_delta(record: registry::SlotRecordView, source: SourceId) -> u64 {
    let at = registry::arrival_of(record.entry_arrivals, source)->0;
    since(record.entry_arrivals[at].1, record.first_shred_at)
}

/// What a source amounts to over the slots in `list`.
pub open spec fn entry_source_stats(
    list: Seq<u64>,
    slots: Map<u64, registry::SlotRecordView>,
    id: SourceId,
    name: Seq<char>,
) -> EntrySourceStatsView {
    EntrySourceStatsView {
        id,
        name,
        slots_seen: list.filter(signalled(slots, id)).len(),
        latency_ns: list.filter(signalled(slots, id)).map_values(
            |slot: u64| entry_delta(slots[slot], id),
        ),
    }
}

impl EntrySourceStatsView {
    pub open spec fn empty(id: SourceId, name: Seq<char>) -> EntrySourceStatsView {
        EntrySourceStatsView { id, name, slots_seen: 0, latency_ns: Seq::empty() }
    }

    /// With one more slot.
    pub open spec fn with(self, record: registry::SlotRecordView) -> EntrySourceStatsView {
        if registry::arrival_of(record.entry_arrivals, self.id) is Some {
            EntrySourceStatsView {
                slots_seen: self.slots_seen + 1,
                latency_ns: self.latency_ns.push(entry_delta(record, self.id)),
                ..self
            }
        } else {
            self
        }
    }
}

/// One more slot in the list is one more in what the source amounts to.
proof fn lemma_entry_source_stats_next(
    list: Seq<u64>,
    n: int,
    slots: Map<u64, registry::SlotRecordView>,
    id: SourceId,
    name: Seq<char>,
)
    requires
        0 <= n < list.len(),
    ensures
        entry_source_stats(list.take(n + 1), slots, id, name) == entry_source_stats(
            list.take(n),
            slots,
            id,
            name,
        ).with(slots[list[n]]),
        entry_source_stats(list.take(n), slots, id, name).slots_seen <= n,
{
    lemma_filter_next(list, n, signalled(slots, id));
    assert(entry_source_stats(list.take(n + 1), slots, id, name).latency_ns =~= entry_source_stats(
        list.take(n),
        slots,
        id,
        name,
    ).with(slots[list[n]]).latency_ns);
}

/// A source that gives signs of slots.
#[derive(Debug)]
pub struct EntrySourceStats {
    pub id: SourceId,
    pub name: String,
    pub slots_seen: u64,
    /// How long after the first shred of each slot the sign of it came.
    pub latency_ns: Vec<u64>,
}

impl View for EntrySourceStats {
    type V = EntrySourceStatsView;

    open spec fn view(&self) -> EntrySourceStatsView {
        EntrySourceStatsView {
            id: self.id,
            name: self.name@,
            slots_seen: self.slots_seen as nat,
            latency_ns: self.latency_ns@,
        }
    }
}

impl EntrySourceStats {
    pub fn new(id: SourceId, name: String) -> (stats: EntrySourceStats)
        ensures
            stats@ == EntrySourceStatsView::empty(id, name@),
    {
        EntrySourceStats { id, name, slots_seen: 0, latency_ns: Vec::new() }
    }

    /// Takes in one more slot.
    pub fn note(&mut self, record: &SlotRecord)
        requires
            old(self).slots_seen < u64::MAX,
        ensures
            final(self)@ == old(self)@.with(record@),
    {
        if let Some(at) = registry::find_arrival(&record.entry_arrivals, self.id) {
            self.slots_seen = self.slots_seen + 1;
            self.latency_ns.push(record.entry_arrivals[at].1.saturating_sub(record.first_shred_at));
        }
    }
}

/// What the sources amount to over the slots of a registry.
pub open spec fn entry_stats(
    sources: Seq<EntrySourceStats>,
    active: Seq<(SourceId, String)>,
    list: Seq<u64>,
    slots: Map<u64, registry::SlotRecordView>,
) -> bool {
    &&& sources.len() == active.len()
    &&& forall|i: int|
        0 <= i < sources.len() ==> (#[trigger] sources[i])@ == entry_source_stats(
            list,
            slots,
            active[i].0,
            active[i].1@,
        )
}

/// Sources as they are at the start.
fn new_entry_sources(active: &[(SourceId, String)]) -> (sources: Vec<EntrySourceStats>)
    ensures
        sources@.len() == active@.len(),
        forall|i: int|
            0 <= i < sources@.len() ==> (#[trigger] sources@[i])@ == EntrySourceStatsView::empty(
                active@[i].0,
                active@[i].1@,
            ),
{
    let mut sources: Vec<EntrySourceStats> = Vec::new();
    let mut n: usize = 0;
    while n < active.len()
        invariant
            n <= active@.len(),
            sources@.len() == n,
            forall|i: int|
                0 <= i < sources@.len() ==> (#[trigger] sources@[i])@
                    == EntrySourceStatsView::empty(active@[i].0, active@[i].1@),
        decreases active@.len() - n,
    {
        sources.push(EntrySourceStats::new(active[n].0, active[n].1.clone()));
        n = n + 1;
    }
    sources
}

/// Tallies the slots in `list` for each source.
fn tally_slots(registry: &Registry, list: &Vec<u64>, active: &[(SourceId, String)]) -> (sources: Vec<
    EntrySourceStats,
>)
    requires
        keys::lists_keys(list@, registry@.slots),
    ensures
        entry_stats(sources@, active@, list@, registry@.slots),
{
    let mut sources: Vec<EntrySourceStats> = new_entry_sources(active);
    let ghost slots = registry@.slots;
    let mut n: usize = 0;
    assert forall|i: int| 0 <= i < sources@.len() implies (#[trigger] sources@[i])@
        == entry_source_stats(list@.take(0), slots, active@[i].0, active@[i].1@) by {
        reveal(Seq::filter);
        assert(list@.take(0) =~= Seq::empty());
        assert(sources@[i]@.latency_ns =~= entry_source_stats(
            list@.take(0),
            slots,
            active@[i].0,
            active@[i].1@,
        ).latency_ns);
    }
    while n < list.len()
        invariant
            n <= list@.len(),
            slots == registry@.slots,
            keys::lists_keys(list@, slots),
            entry_stats(sources@, active@, list@.take(n as int), slots),
        decreases list@.len() - n,
    {
        let slot: u64 = list[n];
        assert(list@.contains(slot));
        if let Some(record) = registry.slot_record(slot) {
            let mut i: usize = 0;
            while i < sources.len()
                invariant
                    i <= sources@.len(),
                    n < list.len(),
                    slot == list@[n as int],
                    record@ == slots[slot],
                    sources@.len() == active@.len(),
                    forall|j: int|
                        0 <= j < i ==> (#[trigger] sources@[j])@ == entry_source_stats(
                            list@.take(n + 1),
                            slots,
                            active@[j].0,
                            active@[j].1@,
                        ),
                    forall|j: int|
                        i <= j < sources@.len() ==> (#[trigger] sources@[j])@
                            == entry_source_stats(
                            list@.take(n as int),
                            slots,
                            active@[j].0,
                            active@[j].1@,
                        ),
                decreases sources@.len() - i,
            {
                proof {
                    lemma_entry_source_stats_next(
                        list@,
                        n as int,
                        slots,
                        active@[i as int].0,
                        active@[i as int].1@,
                    );
                    assert(sources@[i as int]@.slots_seen <= n);
                }
                sources[i].note(&record);
                i = i + 1;
            }
        }
        n = n + 1;
    }
    assert(list@.take(n as int) =~= list@);
    sources
}

/// The slots of a run, and the sources that gave signs of them.
#[derive(Debug)]
pub struct SlotStats {
    pub total_slots: u64,
    pub entry_sources: Vec<EntrySourceStats>,
}

impl Default for SlotStats {
    fn default() -> (stats: Self)
        ensures
            stats.total_slots == 0,
            stats.entry_sources@.len() == 0,
    {
        SlotStats { total_slots: 0, entry_sources: Vec::new() }
    }
}

/// How long the account updates of a source took behind the entries that caused them.
#[derive(Debug)]
pub struct GrpcOverheadStats {
    pub id: SourceId,
    pub name: String,
    pub samples: u64,
    pub latency_ns: Vec<u64>,
}

/// The first `count` of the active sources that have latencies, by their places.
pub open spec fn with_latencies(
    active: Seq<(SourceId, String)>,
    latencies: Map<u64, Seq<u64>>,
    count: int,
) -> Seq<int>
    decreases count,
{
    if count <= 0 {
        Seq::empty()
    } else {
        let before = with_latencies(active, latencies, count - 1);
        if latencies.contains_key(registry::source_code(active[count - 1].0)) {
            before.push(count - 1)
        } else {
            before
        }
    }
}

/// `overhead` is what the active sources that have latencies amount to, in their order.
pub open spec fn grpc_stats(
    overhead: Seq<GrpcOverheadStats>,
    active: Seq<(SourceId, String)>,
    latencies: Map<u64, Seq<u64>>,
    count: int,
) -> bool {
    let places = with_latencies(active, latencies, count);
    &&& overhead.len() == places.len()
    &&& forall|i: int|
        #![trigger overhead[i]]
        0 <= i < overhead.len() ==> {
            let (id, name) = active[places[i]];
            let samples = latencies[registry::source_code(id)];
            &&& overhead[i].id == id
            &&& overhead[i].name@ == name@
            &&& overhead[i].samples == samples.len()
            &&& overhead[i].latency_ns@ == samples
        }
}

/// Collects the latencies of the active sources.
fn collect_grpc(registry: &Registry, active: &[(SourceId, String)]) -> (overhead: Vec<
    GrpcOverheadStats,
>)
    ensures
        grpc_stats(overhead@, active@, registry@.grpc_latencies, active@.len() as int),
{
    let mut overhead: Vec<GrpcOverheadStats> = Vec::new();
    let mut n: usize = 0;
    while n < active.len()
        invariant
            n <= active@.len(),
            grpc_stats(overhead@, active@, registry@.grpc_latencies, n as int),
        decreases active@.len() - n,
    {
        let id: SourceId = active[n].0;
        if let Some(latency_ns) = registry.grpc_latencies_of(id) {
            let samples: u64 = latency_ns.len() as u64;
            overhead.push(
                GrpcOverheadStats { id, name: active[n].1.clone(), samples, latency_ns },
            );
        }
        n = n + 1;
    }
    overhead
}

/// The least and the greatest slot of the shreds; zeros where there are none. The very last slot
/// number does not count for the least.
pub open spec fn slot_range(
    shreds: Map<(u64, u32, bool), registry::ShredRecordView>,
    min_slot: u64,
    max_slot: u64,
) -> bool {
    &&& forall|key: (u64, u32, bool)| #[trigger]
        shreds.contains_key(key) ==> key.0 <= max_slot && (min_slot <= key.0 || key.0 == u64::MAX)
    &&& max_slot == 0 || exists|key: (u64, u32, bool)| #[trigger]
        shreds.contains_key(key) && key.0 == max_slot
    &&& {
        ||| exists|key: (u64, u32, bool)| #[trigger]
            shreds.contains_key(key) && key.0 == min_slot && min_slot < u64::MAX
        ||| min_slot == 0 && forall|key: (u64, u32, bool)| #[trigger]
            shreds.contains_key(key) ==> key.0 == u64::MAX
    }
}

/// Finds the least and the greatest slot of the shreds in `list`.
fn find_slot_range(
    list: &Vec<(u64, u32, bool)>,
    Ghost(shreds): Ghost<Map<(u64, u32, bool), registry::ShredRecordView>>,
) -> (range: (u64, u64))
    requires
        keys::lists_keys(list@, shreds),
    ensures
        slot_range(shreds, range.0, range.1),
{
    let mut min_slot: u64 = u64::MAX;
    let mut max_slot: u64 = 0;
    let mut n: usize = 0;
    while n < list.len()
        invariant
            n <= list@.len(),
            forall|i: int|
                0 <= i < n ==> min_slot <= (#[trigger] list@[i]).0 && list@[i].0 <= max_slot,
            max_slot == 0 || exists|i: int|
                0 <= i < n && (#[trigger] list@[i]).0 == max_slot,
            min_slot == u64::MAX || exists|i: int|
                0 <= i < n && (#[trigger] list@[i]).0 == min_slot,
        decreases list@.len() - n,
    {
        let slot: u64 = list[n].0;
        if slot < min_slot {
            min_slot = slot;
        }
        if slot > max_slot {
            max_slot = slot;
        }
        n = n + 1;
    }
    proof {
        assert forall|key: (u64, u32, bool)| #[trigger] shreds.contains_key(key) implies min_slot
            <= key.0 && key.0 <= max_slot by {
            assert(list@.contains(key));
        }
        if max_slot != 0 {
            let i = choose|i: int| 0 <= i < n && (#[trigger] list@[i]).0 == max_slot;
            assert(list@.contains(list@[i]));
        }
        if min_slot != u64::MAX {
            let i = choose|i: int| 0 <= i < n && (#[trigger] list@[i]).0 == min_slot;
            assert(list@.contains(list@[i]));
        }
    }
    if min_slot == u64::MAX {
        min_slot = 0;
    }
    (min_slot, max_slot)
}

/// What a run amounts to.
pub struct BenchmarkStats {
    pub sources: Vec<SourceStats>,
    pub total_unique_shreds: u64,
    pub slot_stats: SlotStats,
    pub grpc_overhead: Vec<GrpcOverheadStats>,
    pub block_stats: BlockStats,
    pub duration_ns: u64,
    pub min_slot: u64,
    pub max_slot: u64,
}

/// Whether `stats` is what the records of a run amount to.
pub open spec fn amounts_to(
    stats: BenchmarkStats,
    view: registry::RegistryView,
    reconstructed: Seq<ReconstructionEvent>,
    active_shred_sources: Seq<(SourceId, String)>,
    active_entry_sources: Seq<(SourceId, String)>,
    duration_ns: u64,
) -> bool {
    &&& exists|list: Seq<(u64, u32, bool)>|
        keys::lists_keys(list, view.shreds) && #[trigger] shred_stats(
            stats.sources@,
            active_shred_sources,
            list,
            view.shreds,
        )
    &&& keys::counts_keys(stats.total_unique_shreds as nat, view.shreds)
    &&& keys::counts_keys(stats.slot_stats.total_slots as nat, view.slots)
    &&& exists|list: Seq<u64>|
        keys::lists_keys(list, view.slots) && #[trigger] entry_stats(
            stats.slot_stats.entry_sources@,
            active_entry_sources,
            list,
            view.slots,
        )
    &&& grpc_stats(
        stats.grpc_overhead@,
        active_entry_sources,
        view.grpc_latencies,
        active_entry_sources.len() as int,
    )
    &&& blocks::block_stats(stats.block_stats, reconstructed, active_shred_sources)
    &&& stats.duration_ns == duration_ns
    &&& slot_range(view.shreds, stats.min_slot, stats.max_slot)
}

/// What the records of a run amount to. Shreds and slots are walked in some order, in which the
/// latencies of each source then stand.
pub fn compute_stats(
    registry: &Registry,
    reconstructed: &[ReconstructionEvent],
    active_shred_sources: &[(SourceId, String)],
    active_entry_sources: &[(SourceId, String)],
    duration_ns: u64,
) -> (stats: BenchmarkStats)
    ensures
        exists|list: Seq<(u64, u32, bool)>|
            keys::lists_keys(list, registry@.shreds) && #[trigger] shred_stats(
                stats.sources@,
                active_shred_sources@,
                list,
                registry@.shreds,
            ),
        keys::counts_keys(stats.total_unique_shreds as nat, registry@.shreds),
        keys::counts_keys(stats.slot_stats.total_slots as nat, registry@.slots),
        exists|list: Seq<u64>|
            keys::lists_keys(list, registry@.slots) && #[trigger] entry_stats(
                stats.slot_stats.entry_sources@,
                active_entry_sources@,
                list,
                registry@.slots,
            ),
        grpc_stats(
            stats.grpc_overhead@,
            active_entry_sources@,
            registry@.grpc_latencies,
            active_entry_sources@.len() as int,
        ),
        blocks::block_stats(stats.block_stats, reconstructed@, active_shred_sources@),
        stats.duration_ns == duration_ns,
        slot_range(registry@.shreds, stats.min_slot, stats.max_slot),
        amounts_to(
            stats,
            registry@,
            reconstructed@,
            active_shred_sources@,
            active_entry_sources@,
            duration_ns,
        ),
{
    let total_unique_shreds: u64 = registry.unique_shreds() as u64;
    let list: Vec<(u64, u32, bool)> = registry.shred_keys();
    let (min_slot, max_slot): (u64, u64) = find_slot_range(&list, Ghost(registry@.shreds));
    let sources: Vec<SourceStats> = tally_shreds(registry, &list, active_shred_sources);
    let slot_list: Vec<u64> = registry.slot_keys();
    let slot_stats = SlotStats {
        total_slots: registry.slots_seen() as u64,
        entry_sources: tally_slots(registry, &slot_list, active_entry_sources),
    };
    let stats = BenchmarkStats {
        sources,
        total_unique_shreds,
        slot_stats,
        grpc_overhead: collect_grpc(registry, active_entry_sources),
        block_stats: blocks::compute_block_stats(reconstructed, active_shred_sources),
        duration_ns,
        min_slot,
        max_slot,
    };
    proof {
        assert(shred_stats(stats.sources@, active_shred_sources@, list@, registry@.shreds));
        assert(entry_stats(
            stats.slot_stats.entry_sources@,
            active_entry_sources@,
            slot_list@,
            registry@.slots,
        ));
    }
    stats
}

/// Every shred is either received from a source or missed by it, and what is received is either a
/// data shred or a code shred; what is won is received.
pub proof fn lemma_received_or_missed(
    list: Seq<(u64, u32, bool)>,
    shreds: Map<(u64, u32, bool), registry::ShredRecordView>,
    id: SourceId,
    name: Seq<char>,
)
    ensures
        ({
            let stats = source_stats(list, shreds, id, name);
            &&& stats.received + stats.missed == list.len()
            &&& stats.data_shreds + stats.code_shreds == stats.received
            &&& stats.wins <= stats.received
            &&& stats.latency_ns.len() == stats.received
        }),
    decreases list.len(),
{
    if list.len() == 0 {
        reveal(Seq::filter);
    } else {
        let n = list.len() - 1;
        lemma_received_or_missed(list.take(n), shreds, id, name);
        lemma_source_stats_next(list, n, shreds, id, name);
        assert(list.take(n + 1) =~= list);
    }
}

/// Whether a latency is none.
pub open spec fn is_zero() -> spec_fn(u64) -> bool {
    |latency: u64| latency == 0
}

/// How many arrivals of the shreds in `list` are from a source.
pub open spec fn all_arrivals(
    list: Seq<(u64, u32, bool)>,
    shreds: Map<(u64, u32, bool), registry::ShredRecordView>,
    source: SourceId,
) -> nat
    decreases list.len(),
{
    if list.len() == 0 {
        0
    } else {
        all_arrivals(list.drop_last(), shreds, source) + arrivals_from(
            shreds[list.last()].arrivals,
            source,
        ).len()
    }
}

/// A source wins as many shreds as it has latencies of zero.
pub proof fn lemma_wins_are_zeros(
    list: Seq<(u64, u32, bool)>,
    shreds: Map<(u64, u32, bool), registry::ShredRecordView>,
    id: SourceId,
    name: Seq<char>,
)
    ensures
        ({
            let stats = source_stats(list, shreds, id, name);
            stats.wins == stats.latency_ns.filter(is_zero()).len()
        }),
    decreases list.len(),
{
    reveal(Seq::filter);
    if list.len() > 0 {
        let n = list.len() - 1;
        let before = source_stats(list.take(n), shreds, id, name);
        lemma_wins_are_zeros(list.take(n), shreds, id, name);
        lemma_source_stats_next(list, n, shreds, id, name);
        assert(list.take(n + 1) =~= list);
        let latency = delta(shreds[list[n]], id);
        assert(before.latency_ns.push(latency).drop_last() =~= before.latency_ns);
    }
}

/// Every arrival from a source is either the first of its shred or a repeat, as long as the
/// repeats can be counted.
pub proof fn lemma_arrivals_are_counted(
    list: Seq<(u64, u32, bool)>,
    shreds: Map<(u64, u32, bool), registry::ShredRecordView>,
    id: SourceId,
    name: Seq<char>,
)
    requires
        all_arrivals(list, shreds, id) <= u64::MAX,
    ensures
        ({
            let stats = source_stats(list, shreds, id, name);
            stats.received + stats.dupes == all_arrivals(list, shreds, id)
        }),
{
    lemma_repeats_and_received(list, shreds, id);
}

proof fn lemma_repeats_and_received(
    list: Seq<(u64, u32, bool)>,
    shreds: Map<(u64, u32, bool), registry::ShredRecordView>,
    id: SourceId,
)
    ensures
        list.filter(delivered(shreds, id)).len() + all_repeats(list, shreds, id) == all_arrivals(
            list,
            shreds,
            id,
        ),
    decreases list.len(),
{
    reveal(Seq::filter);
    if list.len() > 0 {
        lemma_repeats_and_received(list.drop_last(), shreds, id);
    }
}

/// In whatever order the shreds are walked, a source amounts to the same, but for the order of its
/// latencies.
pub proof fn lemma_order_does_not_matter(
    first: Seq<(u64, u32, bool)>,
    second: Seq<(u64, u32, bool)>,
    shreds: Map<(u64, u32, bool), registry::ShredRecordView>,
    id: SourceId,
    name: Seq<char>,
)
    requires
        keys::lists_keys(first, shreds),
        keys::lists_keys(second, shreds),
    ensures
        ({
            let one = source_stats(first, shreds, id, name);
            let other = source_stats(second, shreds, id, name);
            &&& one.latency_ns.to_multiset() == other.latency_ns.to_multiset()
            &&& one == (SourceStatsView { latency_ns: one.latency_ns, ..other })
        }),
    decreases first.len(),
{
    lemma_same_tally(first, second, shreds, id, name);
}

/// Lists with the same keys, each once, tally up to the same.
proof fn lemma_same_tally(
    first: Seq<(u64, u32, bool)>,
    second: Seq<(u64, u32, bool)>,
    shreds: Map<(u64, u32, bool), registry::ShredRecordView>,
    id: SourceId,
    name: Seq<char>,
)
    requires
        first.no_duplicates(),
        second.no_duplicates(),
        forall|key: (u64, u32, bool)| #[trigger] first.contains(key) <==> second.contains(key),
    ensures
        ({
            let one = source_stats(first, shreds, id, name);
            let other = source_stats(second, shreds, id, name);
            &&& one.latency_ns.to_multiset() == other.latency_ns.to_multiset()
            &&& one == (SourceStatsView { latency_ns: one.latency_ns, ..other })
        }),
    decreases first.len(),
{
    broadcast use vstd::seq_lib::group_to_multiset_ensures;

    if first.len() == 0 {
        reveal(Seq::filter);
        if second.len() > 0 {
            assert(second.contains(second[0]));
            assert(first.contains(second[0]));
        }
        assert(second =~= first);
    } else {
        let n = first.len() - 1;
        let key = first[n];
        assert(first.contains(key));
        let at = choose|at: int| 0 <= at < second.len() && second[at] == key;
        let rest = second.remove(at);
        let shorter = first.take(n);
        assert(first.take(n + 1) =~= first);
        assert forall|k: (u64, u32, bool)| #[trigger] shorter.contains(k) <==> rest.contains(k) by {
            if shorter.contains(k) {
                let i = choose|i: int| 0 <= i < shorter.len() && shorter[i] == k;
                assert(first[i] == k);
                assert(first.contains(k));
                let j = choose|j: int| 0 <= j < second.len() && second[j] == k;
                assert(j != at);
                assert(rest[if j < at { j } else { j - 1 }] == k);
            }
            if rest.contains(k) {
                let j = choose|j: int| 0 <= j < rest.len() && rest[j] == k;
                let there = if j < at {
                    j
                } else {
                    j + 1
                };
                assert(second[there] == k && there != at);
                assert(second.contains(k));
                assert(first.contains(k));
                let i = choose|i: int| 0 <= i < first.len() && first[i] == k;
                assert(i != n);
                assert(shorter[i] == k);
            }
        }
        lemma_same_tally(shorter, rest, shreds, id, name);
        lemma_source_stats_next(first, n, shreds, id, name);
        lemma_tally_remove(second, at, shreds, id, name);
    }
}

/// A tally without one of the keys.
proof fn lemma_tally_remove(
    list: Seq<(u64, u32, bool)>,
    at: int,
    shreds: Map<(u64, u32, bool), registry::ShredRecordView>,
    id: SourceId,
    name: Seq<char>,
)
    requires
        0 <= at < list.len(),
    ensures
        ({
            let all = source_stats(list, shreds, id, name);
            let with = source_stats(list.remove(at), shreds, id, name).with(
                list[at].2,
                shreds[list[at]],
            );
            &&& all.latency_ns.to_multiset() == with.latency_ns.to_multiset()
            &&& all == (SourceStatsView { latency_ns: all.latency_ns, ..with })
        }),
    decreases list.len(),
{
    broadcast use vstd::seq_lib::group_to_multiset_ensures;

    let n = list.len() - 1;
    assert(list.take(n + 1) =~= list);
    lemma_source_stats_next(list, n, shreds, id, name);
    if at == n {
        assert(list.remove(at) =~= list.take(n));
    } else {
        let rest = list.remove(at);
        lemma_tally_remove(list.take(n), at, shreds, id, name);
        assert(rest.take(n - 1) =~= list.take(n).remove(at));
        assert(rest.take(n) =~= rest);
        assert(rest[n - 1] == list[n]);
        lemma_source_stats_next(rest, n - 1, shreds, id, name);
        let last = (list[n].2, shreds[list[n]]);
        let taken = (list[at].2, shreds[list[at]]);
        let base = source_stats(list.take(n).remove(at), shreds, id, name);
        assert(base.with(taken.0, taken.1).with(last.0, last.1).latency_ns.to_multiset()
            == base.with(last.0, last.1).with(taken.0, taken.1).latency_ns.to_multiset()) by {
            broadcast use vstd::multiset::group_multiset_axioms;

            let a = delta(taken.1, id);
            let b = delta(last.1, id);
            let l = base.latency_ns;
            assert(l.push(a).push(b).to_multiset() =~= l.push(b).push(a).to_multiset());
        }
    }
}

/// The earliest of arrivals is one of them, and none is earlier.
pub(crate) proof fn lemma_earliest_is_least(arrivals: Seq<(SourceId, u64)>)
    requires
        arrivals.len() > 0,
    ensures
        exists|i: int| 0 <= i < arrivals.len() && (#[trigger] arrivals[i]).1 == earliest(arrivals),
        forall|i: int| 0 <= i < arrivals.len() ==> earliest(arrivals) <= (#[trigger] arrivals[i]).1,
    decreases arrivals.len(),
{
    if arrivals.len() == 1 {
        assert(arrivals[0].1 == earliest(arrivals));
    } else {
        let rest = arrivals.drop_last();
        lemma_earliest_is_least(rest);
        let i = choose|i: int| 0 <= i < rest.len() && (#[trigger] rest[i]).1 == earliest(rest);
        assert(arrivals[i] == rest[i]);
        assert(arrivals[arrivals.len() - 1] == arrivals.last());
        assert forall|i: int| 0 <= i < arrivals.len() implies earliest(arrivals) <= (
        #[trigger] arrivals[i]).1 by {
            if i < rest.len() {
                assert(arrivals[i] == rest[i]);
            }
        }
    }
}

/// A latency is measured against the earliest arrival over all sources: the source of that arrival
/// has none, and wins the shred.
pub proof fn lemma_first_source_wins(record: registry::ShredRecordView)
    requires
        record.wf(),
    ensures
        heard(record, record.first_source),
        delta(record, record.first_source) == 0,
{
    let source = record.first_source;
    let mine = arrivals_from(record.arrivals, source);
    let first = (source, record.first_seen);
    broadcast use vstd::seq_lib::group_filter_ensures;

    let i = choose|i: int| 0 <= i < record.arrivals.len() && record.arrivals[i] == first;
    assert(record.arrivals.filter(is_from(source)).contains(record.arrivals[i]));
    let j = choose|j: int| 0 <= j < mine.len() && mine[j] == first;
    assert(mine[j] == first);
    lemma_earliest_is_least(mine);
}

/// A latency is how long after the earliest arrival over all sources the earliest one from the
/// source was.
pub proof fn lemma_delta_is_exact(record: registry::ShredRecordView, source: SourceId)
    requires
        record.wf(),
        heard(record, source),
    ensures
        delta(record, source) == earliest(arrivals_from(record.arrivals, source)) - earliest(
            record.arrivals,
        ),
{
    let mine = arrivals_from(record.arrivals, source);
    lemma_earliest_is_least(mine);
    let j = choose|j: int| 0 <= j < mine.len() && (#[trigger] mine[j]).1 == earliest(mine);
    lemma_filtered_is_member(record.arrivals, is_from(source), j);
    let i = choose|i: int| 0 <= i < record.arrivals.len() && record.arrivals[i] == mine[j];
    let first = (record.first_source, record.first_seen);
    let k = choose|k: int| 0 <= k < record.arrivals.len() && record.arrivals[k] == first;
    assert(record.arrivals[i].1 >= record.first_seen);
    lemma_earliest_is_least(record.arrivals);
    assert(record.arrivals[k].1 == record.first_seen);
}

/// What is left of a list was in it.
proof fn lemma_filtered_is_member<A>(list: Seq<A>, keep: spec_fn(A) -> bool, at: int)
    requires
        0 <= at < list.filter(keep).len(),
    ensures
        list.contains(list.filter(keep)[at]),
    decreases list.len(),
{
    reveal(Seq::filter);
    if list.len() > 0 {
        let rest = list.drop_last();
        if at < rest.filter(keep).len() {
            lemma_filtered_is_member(rest, keep, at);
            let i = choose|i: int| 0 <= i < rest.len() && rest[i] == rest.filter(keep)[at];
            assert(list[i] == list.filter(keep)[at]);
        } else {
            assert(list[list.len() - 1] == list.filter(keep)[at]);
        }
    }
}

/// Where all shreds are from one source, all its latencies are zero, and it wins every shred.
pub proof fn lemma_only_source_has_no_latency(
    list: Seq<(u64, u32, bool)>,
    shreds: Map<(u64, u32, bool), registry::ShredRecordView>,
    id: SourceId,
    name: Seq<char>,
)
    requires
        keys::lists_keys(list, shreds),
        forall|key: (u64, u32, bool)| #[trigger] shreds.contains_key(key) ==> shreds[key].wf(),
        forall|key: (u64, u32, bool), i: int|
            #![trigger shreds[key].arrivals[i]]
            shreds.contains_key(key) && 0 <= i < shreds[key].arrivals.len()
                ==> shreds[key].arrivals[i].0 == id,
    ensures
        ({
            let stats = source_stats(list, shreds, id, name);
            &&& stats.wins == list.len()
            &&& stats.missed == 0
            &&& forall|i: int|
                0 <= i < stats.latency_ns.len() ==> #[trigger] stats.latency_ns[i] == 0
        }),
{
    assert forall|n: int| 0 <= n < list.len() implies heard(
        shreds[#[trigger] list[n]],
        id,
    ) && delta(shreds[list[n]], id) == 0 by {
        let record = shreds[list[n]];
        assert(list.contains(list[n]));
        let first = (record.first_source, record.first_seen);
        let i = choose|i: int| 0 <= i < record.arrivals.len() && record.arrivals[i] == first;
        assert(shreds[list[n]].arrivals[i].0 == id);
        lemma_first_source_wins(record);
    }
    lemma_all_won(list, shreds, id, name, list.len() as int);
    assert(list.take(list.len() as int) =~= list);
}

proof fn lemma_all_won(
    list: Seq<(u64, u32, bool)>,
    shreds: Map<(u64, u32, bool), registry::ShredRecordView>,
    id: SourceId,
    name: Seq<char>,
    count: int,
)
    requires
        0 <= count <= list.len(),
        forall|n: int|
            0 <= n < list.len() ==> heard(shreds[#[trigger] list[n]], id) && delta(
                shreds[list[n]],
                id,
            ) == 0,
    ensures
        ({
            let stats = source_stats(list.take(count), shreds, id, name);
            &&& stats.wins == count
            &&& stats.missed == 0
            &&& forall|i: int|
                0 <= i < stats.latency_ns.len() ==> #[trigger] stats.latency_ns[i] == 0
        }),
    decreases count,
{
    if count == 0 {
        reveal(Seq::filter);
    } else {
        lemma_all_won(list, shreds, id, name, count - 1);
        lemma_source_stats_next(list, count - 1, shreds, id, name);
    }
}

} // verus!
