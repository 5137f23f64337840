//! What has arrived from which source, and when.
//!
//! Times are nanoseconds since the start of the run.

use std::sync::Arc;

use dashmap::DashMap;
use vstd::prelude::*;

use crate::clock;
use crate::keys;
use crate::shred::{self, parse_shred_key, ShredKey, ShredType};
use crate::store;
use crate::wire;

verus! {

/// Which source something came from: one of the kinds of source, or one of the sources that were
/// started in a run, by its number.
#[derive(Debug, Clone, Copy, PartialEq, Eq, Hash, PartialOrd, Ord, Structural)]
pub enum SourceId {
    RawUdp,
    JitoShredStream,
    DoubleZero,
    Yellowstone,
    JitoEntries,
    Instance(u32),
}

impl Default for SourceId {
    fn default() -> (id: Self)
        ensures
            id == SourceId::RawUdp,
    {
        SourceId::RawUdp
    }
}

impl SourceId {
    /// The name of the kind of source.
    pub fn name(&self) -> (name: &'static str)
        ensures
            name@ == (match *self {
                SourceId::RawUdp => "Raw UDP"@,
                SourceId::JitoShredStream => "Jito ShredStream (UDP)"@,
                SourceId::DoubleZero => "DoubleZero"@,
                SourceId::Yellowstone => "Yellowstone gRPC"@,
                SourceId::JitoEntries => "Jito Entries (gRPC)"@,
                SourceId::Instance(_) => "Source"@,
            }),
    {
        match self {
            SourceId::RawUdp => "Raw UDP",
            SourceId::JitoShredStream => "Jito ShredStream (UDP)",
            SourceId::DoubleZero => "DoubleZero",
            SourceId::Yellowstone => "Yellowstone gRPC",
            SourceId::JitoEntries => "Jito Entries (gRPC)",
            SourceId::Instance(_) => "Source",
        }
    }

    /// The number that the source is called by where it has no name.
    pub fn number(&self) -> (number: u32)
        ensures
            number == source_number(*self),
    {
        match *self {
            SourceId::RawUdp => 0,
            SourceId::JitoShredStream => 1,
            SourceId::DoubleZero => 2,
            SourceId::Yellowstone => 3,
            SourceId::JitoEntries => 4,
            SourceId::Instance(number) => number,
        }
    }

    /// The source's number in a hash map.
    pub fn code(&self) -> (code: u64)
        ensures
            code == source_code(*self),
    {
        match *self {
            SourceId::RawUdp => 0,
            SourceId::JitoShredStream => 1,
            SourceId::DoubleZero => 2,
            SourceId::Yellowstone => 3,
            SourceId::JitoEntries => 4,
            SourceId::Instance(number) => number as u64 + 5,
        }
    }
}

/// A number for each source, by which it is found in a hash map.
pub open spec fn source_code(source: SourceId) -> u64 {
    match source {
        SourceId::RawUdp => 0,
        SourceId::JitoShredStream => 1,
        SourceId::DoubleZero => 2,
        SourceId::Yellowstone => 3,
        SourceId::JitoEntries => 4,
        SourceId::Instance(number) => (number + 5) as u64,
    }
}

/// The number that a source is called by where it has no name.
pub open spec fn source_number(source: SourceId) -> u32 {
    match source {
        SourceId::RawUdp => 0,
        SourceId::JitoShredStream => 1,
        SourceId::DoubleZero => 2,
        SourceId::Yellowstone => 3,
        SourceId::JitoEntries => 4,
        SourceId::Instance(number) => number,
    }
}

/// A shred as it came from a source.
#[derive(Debug)]
pub struct ShredEvent {
    pub source: SourceId,
    pub key: ShredKey,
    pub received_at: u64,
    /// The whole datagram.
    pub payload: Arc<Vec<u8>>,
}

/// `event` is the shred in a datagram from a source, if there is one.
pub open spec fn is_read(
    event: Option<ShredEvent>,
    source: SourceId,
    datagram: Seq<u8>,
    received_at: u64,
) -> bool {
    match event {
        Some(event) => {
            &&& shred::shred_key(datagram) == Some(event.key)
            &&& event.source == source
            &&& event.received_at == received_at
            &&& event.payload@ == datagram
        },
        None => shred::shred_key(datagram) is None,
    }
}

impl ShredEvent {
    /// The shred in a datagram from a source, if there is one.
    pub fn read(source: SourceId, datagram: &[u8], received_at: u64) -> (event: Option<ShredEvent>)
        ensures
            match event {
                Some(event) => {
                    &&& shred::shred_key(datagram@) == Some(event.key)
                    &&& event.source == source
                    &&& event.received_at == received_at
                    &&& event.payload@ == datagram@
                },
                None => shred::shred_key(datagram@) is None,
            },
            is_read(event, source, datagram@, received_at),
    {
        match parse_shred_key(datagram) {
            Some(key) => {
                let payload: Arc<Vec<u8>> = Arc::new(
                    wire::copy_range(datagram, 0, datagram.len()),
                );
                assert(payload@ =~= datagram@);
                Some(ShredEvent { source, key, received_at, payload })
            },
            None => None,
        }
    }
}

/// A sign of a slot from a source that does not deliver shreds.
#[derive(Debug, Clone, Copy)]
pub struct SlotEvent {
    pub source: SourceId,
    pub slot: u64,
    pub received_at: u64,
}

/// How long an account update came behind the entry that caused it.
#[derive(Debug, Clone, Copy)]
pub struct GrpcLatencyEvent {
    pub source: SourceId,
    pub latency_ns: u64,
}

/// A block that the shreds of one source suffice for.
#[derive(Debug, Clone, Copy, PartialEq, Eq, Structural)]
pub struct ReconstructionEvent {
    pub source: SourceId,
    pub slot: u64,
    /// When the last shred of the block was received.
    pub reconstructable_at: u64,
    /// When the source's first shred of the slot was received.
    pub first_source_shred_at: u64,
    pub expected_data_shreds: u32,
    pub received_shreds: u32,
    pub recovered_data_shreds: u32,
    pub fec_sets_recovered: u32,
    pub entries: u64,
    pub transactions: u64,
    pub reconstruction_cpu_ns: u64,
}

/// What is recorded of a shred.
#[verifier::ext_equal]
pub struct ShredRecordView {
    pub first_seen: u64,
    pub first_source: SourceId,
    pub arrivals: Seq<(SourceId, u64)>,
}

impl ShredRecordView {
    /// A shred that came for the first time.
    pub open spec fn first(source: SourceId, at: u64) -> ShredRecordView {
        ShredRecordView { first_seen: at, first_source: source, arrivals: seq![(source, at)] }
    }

    /// The shred with one more arrival.
    pub open spec fn with(self, source: SourceId, at: u64) -> ShredRecordView {
        ShredRecordView {
            first_seen: if at < self.first_seen {
                at
            } else {
                self.first_seen
            },
            first_source: if at < self.first_seen {
                source
            } else {
                self.first_source
            },
            arrivals: self.arrivals.push((source, at)),
        }
    }

    /// The first sight of the shred is the earliest of its arrivals.
    pub open spec fn wf(self) -> bool {
        &&& self.arrivals.contains((self.first_source, self.first_seen))
        &&& forall|i: int|
            0 <= i < self.arrivals.len() ==> (#[trigger] self.arrivals[i]).1 >= self.first_seen
    }
}

/// A shred, and when it came from which source.
pub struct ShredRecord {
    /// The earliest arrival over all sources.
    pub first_seen: u64,
    /// The source that the earliest arrival is from.
    pub first_source: SourceId,
    /// All arrivals; a source that delivered the shred again has several.
    pub arrivals: Vec<(SourceId, u64)>,
}

impl View for ShredRecord {
    type V = ShredRecordView;

    open spec fn view(&self) -> ShredRecordView {
        ShredRecordView {
            first_seen: self.first_seen,
            first_source: self.first_source,
            arrivals: self.arrivals@,
        }
    }
}

/// A copy of a list of arrivals.
fn copy_arrivals(arrivals: &Vec<(SourceId, u64)>) -> (copy: Vec<(SourceId, u64)>)
    ensures
        copy@ == arrivals@,
{
    let mut copy: Vec<(SourceId, u64)> = Vec::new();
    let mut n: usize = 0;
    while n < arrivals.len()
        invariant
            n <= arrivals@.len(),
            copy@ == arrivals@.take(n as int),
        decreases arrivals@.len() - n,
    {
        copy.push(arrivals[n]);
        n = n + 1;
    }
    copy
}

impl ShredRecord {
    /// The record of a shred that came for the first time.
    pub fn first(source: SourceId, at: u64) -> (record: ShredRecord)
        ensures
            record@ == ShredRecordView::first(source, at),
    {
        let mut arrivals: Vec<(SourceId, u64)> = Vec::new();
        arrivals.push((source, at));
        ShredRecord { first_seen: at, first_source: source, arrivals }
    }

    /// Notes one more arrival.
    pub fn arrive(&mut self, source: SourceId, at: u64)
        ensures
            final(self)@ == old(self)@.with(source, at),
    {
        if at < self.first_seen {
            self.first_seen = at;
            self.first_source = source;
        }
        self.arrivals.push((source, at));
    }

    pub fn copy(&self) -> (copy: ShredRecord)
        ensures
            copy@ == self@,
    {
        ShredRecord {
            first_seen: self.first_seen,
            first_source: self.first_source,
            arrivals: copy_arrivals(&self.arrivals),
        }
    }
}

/// Whether a source stands at `at` in a list of arrivals, and nowhere before.
pub open spec fn is_arrival_of(arrivals: Seq<(SourceId, u64)>, source: SourceId, at: int) -> bool {
    &&& 0 <= at < arrivals.len()
    &&& arrivals[at].0 == source
    &&& forall|i: int| 0 <= i < at ==> (#[trigger] arrivals[i]).0 != source
}

/// Where a source stands in a list of arrivals for the first time.
pub open spec fn arrival_of(arrivals: Seq<(SourceId, u64)>, source: SourceId) -> Option<int> {
    if exists|at: int| is_arrival_of(arrivals, source, at) {
        Some(choose|at: int| is_arrival_of(arrivals, source, at))
    } else {
        None
    }
}

/// What is recorded of a slot.
#[verifier::ext_equal]
pub struct SlotRecordView {
    pub first_shred_at: u64,
    pub shred_seen: bool,
    pub entry_arrivals: Seq<(SourceId, u64)>,
}

impl SlotRecordView {
    /// A slot of which a shred came first.
    pub open spec fn of_shred(at: u64) -> SlotRecordView {
        SlotRecordView { first_shred_at: at, shred_seen: true, entry_arrivals: Seq::empty() }
    }

    /// A slot of which another sign than a shred came first; that stands in for the first shred
    /// until one has come.
    pub open spec fn of_event(source: SourceId, at: u64) -> SlotRecordView {
        SlotRecordView {
            first_shred_at: at,
            shred_seen: false,
            entry_arrivals: seq![(source, at)],
        }
    }

    /// The slot with one more shred.
    pub open spec fn with_shred(self, at: u64) -> SlotRecordView {
        SlotRecordView {
            first_shred_at: if self.shred_seen && self.first_shred_at <= at {
                self.first_shred_at
            } else {
                at
            },
            shred_seen: true,
            ..self
        }
    }

    /// The slot with one more sign from a source, of which the earliest is kept.
    pub open spec fn with_event(self, source: SourceId, at: u64) -> SlotRecordView {
        SlotRecordView {
            entry_arrivals: match arrival_of(self.entry_arrivals, source) {
                Some(i) => if at < self.entry_arrivals[i].1 {
                    self.entry_arrivals.update(i, (source, at))
                } else {
                    self.entry_arrivals
                },
                None => self.entry_arrivals.push((source, at)),
            },
            ..self
        }
    }

    /// Each source has one arrival.
    pub open spec fn wf(self) -> bool {
        forall|i: int, j: int|
            0 <= i < j < self.entry_arrivals.len() ==> (#[trigger] self.entry_arrivals[i]).0 != (
            #[trigger] self.entry_arrivals[j]).0
    }
}

/// A slot, and when the sources gave a sign of it.
pub struct SlotRecord {
    /// The earliest arrival of a shred over all sources; until a shred has come, the first sign of
    /// the slot.
    pub first_shred_at: u64,
    /// Whether a shred has come.
    pub shred_seen: bool,
    /// The earliest arrival from each source that does not deliver shreds.
    pub entry_arrivals: Vec<(SourceId, u64)>,
}

impl View for SlotRecord {
    type V = SlotRecordView;

    open spec fn view(&self) -> SlotRecordView {
        SlotRecordView {
            first_shred_at: self.first_shred_at,
            shred_seen: self.shred_seen,
            entry_arrivals: self.entry_arrivals@,
        }
    }
}

/// The place of a source in a list of arrivals.
pub fn find_arrival(arrivals: &Vec<(SourceId, u64)>, source: SourceId) -> (found: Option<usize>)
    ensures
        match found {
            Some(at) => arrival_of(arrivals@, source) == Some(at as int) && is_arrival_of(
                arrivals@,
                source,
                at as int,
            ),
            None => arrival_of(arrivals@, source) is None,
        },
{
    let mut n: usize = 0;
    while n < arrivals.len()
        invariant
            n <= arrivals@.len(),
            forall|i: int| 0 <= i < n ==> (#[trigger] arrivals@[i]).0 != source,
        decreases arrivals@.len() - n,
    {
        if arrivals[n].0 == source {
            proof {
                assert(is_arrival_of(arrivals@, source, n as int));
                let at = arrival_of(arrivals@, source)->0;
                assert(arrivals@[at].0 == source && arrivals@[n as int].0 == source);
                assert(at == n);
            }
            return Some(n);
        }
        n = n + 1;
    }
    None
}

impl SlotRecord {
    pub fn of_shred(at: u64) -> (record: SlotRecord)
        ensures
            record@ == SlotRecordView::of_shred(at),
    {
        SlotRecord { first_shred_at: at, shred_seen: true, entry_arrivals: Vec::new() }
    }

    pub fn of_event(source: SourceId, at: u64) -> (record: SlotRecord)
        ensures
            record@ == SlotRecordView::of_event(source, at),
    {
        let mut entry_arrivals: Vec<(SourceId, u64)> = Vec::new();
        entry_arrivals.push((source, at));
        SlotRecord { first_shred_at: at, shred_seen: false, entry_arrivals }
    }

    /// Notes one more shred.
    pub fn note_shred(&mut self, at: u64)
        ensures
            final(self)@ == old(self)@.with_shred(at),
    {
        if !self.shred_seen || at < self.first_shred_at {
            self.first_shred_at = at;
        }
        self.shred_seen = true;
    }

    /// Notes one more sign from a source.
    pub fn note_event(&mut self, source: SourceId, at: u64)
        ensures
            final(self)@ == old(self)@.with_event(source, at),
    {
        match find_arrival(&self.entry_arrivals, source) {
            Some(n) => {
                if at < self.entry_arrivals[n].1 {
                    self.entry_arrivals.set(n, (source, at));
                }
            },
            None => self.entry_arrivals.push((source, at)),
        }
    }

    pub fn copy(&self) -> (copy: SlotRecord)
        ensures
            copy@ == self@,
    {
        SlotRecord {
            first_shred_at: self.first_shred_at,
            shred_seen: self.shred_seen,
            entry_arrivals: copy_arrivals(&self.entry_arrivals),
        }
    }
}

/// The key by which a shred is found: its slot, its index, and whether it is a data shred.
pub open spec fn key_code(key: ShredKey) -> (u64, u32, bool) {
    (key.slot, key.index, key.shred_type is Data)
}

/// What has been recorded.
#[verifier::ext_equal]
pub struct RegistryView {
    pub shreds: Map<(u64, u32, bool), ShredRecordView>,
    pub slots: Map<u64, SlotRecordView>,
    /// For each source, by its number, how long its account updates took.
    pub grpc_latencies: Map<u64, Seq<u64>>,
}

impl RegistryView {
    pub open spec fn empty() -> RegistryView {
        RegistryView { shreds: Map::empty(), slots: Map::empty(), grpc_latencies: Map::empty() }
    }

    /// Every record is in order.
    pub open spec fn wf(self) -> bool {
        &&& forall|key: (u64, u32, bool)| #[trigger]
            self.shreds.contains_key(key) ==> self.shreds[key].wf()
        &&& forall|slot: u64| #[trigger] self.slots.contains_key(slot) ==> self.slots[slot].wf()
    }

    /// With one more shred.
    pub open spec fn with_shred(self, key: ShredKey, source: SourceId, at: u64) -> RegistryView {
        RegistryView {
            shreds: store::with_shred(self.shreds, key_code(key), source, at),
            slots: store::with_slot_shred(self.slots, key.slot, at),
            ..self
        }
    }

    /// With one more sign of a slot.
    pub open spec fn with_slot_event(self, event: SlotEvent) -> RegistryView {
        RegistryView {
            slots: store::with_slot_event(self.slots, event.slot, event.source, event.received_at),
            ..self
        }
    }

    /// With one more latency of an account update.
    pub open spec fn with_grpc_latency(self, event: GrpcLatencyEvent) -> RegistryView {
        RegistryView {
            grpc_latencies: store::with_latency(
                self.grpc_latencies,
                source_code(event.source),
                event.latency_ns,
            ),
            ..self
        }
    }
}

/// Everything that has arrived in a run.
pub struct Registry {
    shreds: DashMap<(u64, u32, bool), ShredRecord>,
    slots: DashMap<u64, SlotRecord>,
    grpc_latencies: DashMap<u64, Vec<u64>>,
    start_time: std::time::Instant,
}

impl View for Registry {
    type V = RegistryView;

    closed spec fn view(&self) -> RegistryView {
        RegistryView {
            shreds: store::shred_records(self.shreds),
            slots: store::slot_records(self.slots),
            grpc_latencies: store::latency_lists(self.grpc_latencies),
        }
    }
}

impl Registry {
    /// When the run started.
    pub closed spec fn started(&self) -> std::time::Instant {
        self.start_time
    }

    pub fn start_time(&self) -> (at: std::time::Instant)
        ensures
            at == self.started(),
    {
        self.start_time
    }

    /// A registry of a run that starts now.
    pub fn new() -> (registry: Registry)
        ensures
            registry@ == RegistryView::empty(),
            registry@.wf(),
    {
        Registry {
            shreds: store::new_shreds(),
            slots: store::new_slots(),
            grpc_latencies: store::new_latencies(),
            start_time: clock::now(),
        }
    }

    /// Records a shred, and that its slot has been seen.
    pub fn record_shred(&mut self, event: &ShredEvent)
        ensures
            final(self)@ == old(self)@.with_shred(event.key, event.source, event.received_at),
            old(self)@.wf() ==> final(self)@.wf(),
            final(self).started() == old(self).started(),
    {
        let is_data: bool = match event.key.shred_type {
            ShredType::Data => true,
            ShredType::Code => false,
        };
        store::put_shred(
            &mut self.shreds,
            (event.key.slot, event.key.index, is_data),
            event.source,
            event.received_at,
        );
        store::put_slot_shred(&mut self.slots, event.key.slot, event.received_at);
        proof {
            lemma_shred_keeps_wf(old(self)@, event.key, event.source, event.received_at);
        }
    }

    /// Records a sign of a slot.
    pub fn record_slot_event(&mut self, event: SlotEvent)
        ensures
            final(self)@ == old(self)@.with_slot_event(event),
            old(self)@.wf() ==> final(self)@.wf(),
            final(self).started() == old(self).started(),
    {
        store::put_slot_event(&mut self.slots, event.slot, event.source, event.received_at);
        proof {
            lemma_slot_event_keeps_wf(old(self)@, event);
        }
    }

    /// Records how long an account update took.
    pub fn record_grpc_latency(&mut self, event: GrpcLatencyEvent)
        ensures
            final(self)@ == old(self)@.with_grpc_latency(event),
            old(self)@.wf() ==> final(self)@.wf(),
            final(self).started() == old(self).started(),
    {
        store::put_latency(&mut self.grpc_latencies, event.source.code(), event.latency_ns);
        assert(self@.shreds == old(self)@.shreds && self@.slots == old(self)@.slots);
    }

    /// How many different shreds have been recorded.
    pub fn unique_shreds(&self) -> (count: usize)
        ensures
            keys::counts_keys(count as nat, self@.shreds),
    {
        store::count_shreds(&self.shreds)
    }

    /// How many slots have been seen.
    pub fn slots_seen(&self) -> (count: usize)
        ensures
            keys::counts_keys(count as nat, self@.slots),
    {
        store::count_slots(&self.slots)
    }

    /// The keys of the shreds, in no particular order.
    pub fn shred_keys(&self) -> (list: Vec<(u64, u32, bool)>)
        ensures
            keys::lists_keys(list@, self@.shreds),
    {
        store::list_shreds(&self.shreds)
    }

    /// The record of a shred.
    pub fn shred_record(&self, key: (u64, u32, bool)) -> (record: Option<ShredRecord>)
        ensures
            match record {
                Some(record) => self@.shreds.contains_key(key) && self@.shreds[key] == record@,
                None => !self@.shreds.contains_key(key),
            },
    {
        store::get_shred(&self.shreds, key)
    }

    /// The slots, in no particular order.
    pub fn slot_keys(&self) -> (list: Vec<u64>)
        ensures
            keys::lists_keys(list@, self@.slots),
    {
        store::list_slots(&self.slots)
    }

    /// The record of a slot.
    pub fn slot_record(&self, slot: u64) -> (record: Option<SlotRecord>)
        ensures
            match record {
                Some(record) => self@.slots.contains_key(slot) && self@.slots[slot] == record@,
                None => !self@.slots.contains_key(slot),
            },
    {
        store::get_slot(&self.slots, slot)
    }

    /// How long the account updates of a source took, in the order in which they were recorded.
    pub fn grpc_latencies_of(&self, source: SourceId) -> (latencies: Option<Vec<u64>>)
        ensures
            match latencies {
                Some(latencies) => self@.grpc_latencies.contains_key(source_code(source))
                    && self@.grpc_latencies[source_code(source)] == latencies@,
                None => !self@.grpc_latencies.contains_key(source_code(source)),
            },
    {
        store::get_latencies(&self.grpc_latencies, source.code())
    }
}

/// Whatever is recorded of a shred, its first sight stays the earliest of its arrivals.
pub proof fn lemma_shred_keeps_wf(view: RegistryView, key: ShredKey, source: SourceId, at: u64)
    ensures
        view.wf() ==> view.with_shred(key, source, at).wf(),
{
    if view.wf() {
        let after = view.with_shred(key, source, at);
        let code = key_code(key);
        assert forall|k: (u64, u32, bool)| #[trigger] after.shreds.contains_key(k) implies after.shreds[k].wf() by {
            if k != code {
                assert(view.shreds.contains_key(k));
            } else if view.shreds.contains_key(code) {
                let old_arrivals = view.shreds[code].arrivals;
                let arrivals = after.shreds[k].arrivals;
                let first = (view.shreds[code].first_source, view.shreds[code].first_seen);
                let i = choose|i: int| 0 <= i < old_arrivals.len() && old_arrivals[i] == first;
                assert(arrivals[i] == first);
                assert(arrivals[arrivals.len() - 1] == (source, at));
                assert forall|n: int| 0 <= n < arrivals.len() implies (#[trigger] arrivals[n]).1
                    >= after.shreds[k].first_seen by {
                    if n < old_arrivals.len() {
                        assert(arrivals[n] == old_arrivals[n]);
                    }
                }
            } else {
                assert(after.shreds[k].arrivals[0] == (source, at));
            }
        }
        assert forall|slot: u64| #[trigger] after.slots.contains_key(slot) implies after.slots[slot].wf() by {
            if view.slots.contains_key(slot) {
                assert(view.slots[slot].wf());
            }
        }
    }
}

/// Whatever is recorded of a slot, each source has one arrival in it.
pub proof fn lemma_slot_event_keeps_wf(view: RegistryView, event: SlotEvent)
    ensures
        view.wf() ==> view.with_slot_event(event).wf(),
{
    if view.wf() {
        let after = view.with_slot_event(event);
        assert forall|slot: u64| #[trigger] after.slots.contains_key(slot) implies after.slots[slot].wf() by {
            if view.slots.contains_key(slot) {
                assert(view.slots[slot].wf());
                if slot == event.slot {
                    let old_arrivals = view.slots[slot].entry_arrivals;
                    let arrivals = after.slots[slot].entry_arrivals;
                    match arrival_of(old_arrivals, event.source) {
                        Some(at) => {
                            assert(is_arrival_of(old_arrivals, event.source, at));
                        },
                        None => {
                            assert forall|i: int| 0 <= i < old_arrivals.len() implies (
                            #[trigger] old_arrivals[i]).0 != event.source by {
                                if old_arrivals[i].0 == event.source {
                                    lemma_first_arrival(old_arrivals, event.source, i);
                                }
                            }
                        },
                    }
                }
            }
        }
    }
}

/// What is recorded of a slot over the first `count` events: of each its source, where it is no
/// shred, and its time.
pub open spec fn slot_after(events: Seq<(Option<SourceId>, u64)>, count: int) -> SlotRecordView
    decreases count,
{
    let (sign, at) = events[count - 1];
    if count <= 1 {
        match sign {
            Some(source) => SlotRecordView::of_event(source, at),
            None => SlotRecordView::of_shred(at),
        }
    } else {
        match sign {
            Some(source) => slot_after(events, count - 1).with_event(source, at),
            None => slot_after(events, count - 1).with_shred(at),
        }
    }
}

/// Once a shred of a slot has come, whatever else has come before or since, its first shred is the
/// earliest of its shreds.
pub proof fn lemma_first_shred_is_earliest(events: Seq<(Option<SourceId>, u64)>, count: int)
    requires
        1 <= count <= events.len(),
    ensures
        ({
            let record = slot_after(events, count);
            &&& record.shred_seen <==> exists|i: int|
                0 <= i < count && (#[trigger] events[i]).0 is None
            &&& record.shred_seen ==> {
                &&& exists|i: int|
                    0 <= i < count && (#[trigger] events[i]).0 is None && events[i].1
                        == record.first_shred_at
                &&& forall|i: int|
                    0 <= i < count && (#[trigger] events[i]).0 is None ==> record.first_shred_at
                        <= events[i].1
            }
        }),
    decreases count,
{
    let last = events[count - 1];
    if count == 1 {
        assert(events[0] == last);
    } else {
        lemma_first_shred_is_earliest(events, count - 1);
        let before = slot_after(events, count - 1);
        assert(events[count - 1] == last);
        if before.shred_seen {
            let i = choose|i: int|
                0 <= i < count - 1 && (#[trigger] events[i]).0 is None && events[i].1
                    == before.first_shred_at;
            assert(events[i].0 is None);
        }
    }
}

/// In whatever order two arrivals of a shred are recorded, its first sight is the same, and so are
/// its arrivals but for their order.
pub proof fn lemma_arrivals_in_any_order(
    record: ShredRecordView,
    first: (SourceId, u64),
    second: (SourceId, u64),
)
    ensures
        ({
            let one = record.with(first.0, first.1).with(second.0, second.1);
            let other = record.with(second.0, second.1).with(first.0, first.1);
            &&& one.first_seen == other.first_seen
            &&& one.arrivals.to_multiset() == other.arrivals.to_multiset()
        }),
{
    broadcast use vstd::seq_lib::group_to_multiset_ensures;
    broadcast use vstd::multiset::group_multiset_axioms;

    let arrivals = record.arrivals;
    assert(arrivals.push(first).push(second).to_multiset() =~= arrivals.push(second).push(
        first,
    ).to_multiset());
}

/// Of each source the earliest sign of a slot is kept, and those of other sources are not touched.
pub proof fn lemma_earliest_sign_is_kept(record: SlotRecordView, source: SourceId, at: u64)
    ensures
        ({
            let after = record.with_event(source, at);
            &&& arrival_of(after.entry_arrivals, source) matches Some(i)
                && after.entry_arrivals[i].1 == (match arrival_of(record.entry_arrivals, source) {
                Some(j) if record.entry_arrivals[j].1 <= at => record.entry_arrivals[j].1,
                _ => at,
            })
            &&& after.entry_arrivals.len() >= record.entry_arrivals.len()
            &&& forall|i: int|
                0 <= i < record.entry_arrivals.len() && (#[trigger] record.entry_arrivals[i]).0
                    != source ==> after.entry_arrivals[i] == record.entry_arrivals[i]
        }),
{
    let before = record.entry_arrivals;
    let after = record.with_event(source, at).entry_arrivals;
    match arrival_of(before, source) {
        Some(j) => {
            assert(is_arrival_of(before, source, j));
            assert(is_arrival_of(after, source, j));
            let i = arrival_of(after, source)->0;
            assert(is_arrival_of(after, source, i));
            assert(after[i].0 == source && after[j].0 == source);
            assert(i == j);
        },
        None => {
            let n = before.len() as int;
            assert forall|i: int| 0 <= i < n implies (#[trigger] after[i]).0 != source by {
                if before[i].0 == source {
                    lemma_first_arrival(before, source, i);
                }
            }
            assert(is_arrival_of(after, source, n));
            let i = arrival_of(after, source)->0;
            assert(is_arrival_of(after, source, i));
            assert(after[i].0 == source);
            assert(i == n);
        },
    }
}

/// A source that stands in a list of arrivals stands there for the first time somewhere.
pub(crate) proof fn lemma_first_arrival(arrivals: Seq<(SourceId, u64)>, source: SourceId, at: int)
    requires
        0 <= at < arrivals.len(),
        arrivals[at].0 == source,
    ensures
        exists|i: int| is_arrival_of(arrivals, source, i),
    decreases at,
{
    if exists|i: int| 0 <= i < at && (#[trigger] arrivals[i]).0 == source {
        let i = choose|i: int| 0 <= i < at && (#[trigger] arrivals[i]).0 == source;
        lemma_first_arrival(arrivals, source, i);
    } else {
        assert(is_arrival_of(arrivals, source, at));
    }
}

/// Every source has a number of its own among those that are configured, and no two sources are
/// found under the same number.
pub proof fn lemma_numbers_tell_sources_apart(first: SourceId, second: SourceId)
    ensures
        source_code(first) == source_code(second) <==> first == second,
        first matches SourceId::Instance(number) ==> source_number(first) == number,
{
}

} // verus!
