//! The concurrent maps that a registry is kept in.
//!
//! What a map holds has a name here, and each operation on a map says over that name what it does.
//! A map is changed through an exclusive reference only.

use dashmap::DashMap;
use vstd::prelude::*;

use crate::keys;
use crate::registry::{ShredRecord, ShredRecordView, SlotRecord, SlotRecordView, SourceId};

verus! {

/// `dashmap::DashMap`.
#[verifier::external_type_specification]
#[verifier::external_body]
#[verifier::reject_recursive_types(K)]
#[verifier::reject_recursive_types(V)]
#[verifier::reject_recursive_types(S)]
pub struct ExDashMap<K, V, S>(DashMap<K, V, S>);

/// The records that a map of shreds holds.
pub uninterp spec fn shred_records(map: DashMap<(u64, u32, bool), ShredRecord>) -> Map<
    (u64, u32, bool),
    ShredRecordView,
>;

/// The records that a map of slots holds.
pub uninterp spec fn slot_records(map: DashMap<u64, SlotRecord>) -> Map<u64, SlotRecordView>;

/// The lists that a map of latencies holds.
pub uninterp spec fn latency_lists(map: DashMap<u64, Vec<u64>>) -> Map<u64, Seq<u64>>;

/// Records of shreds with one more arrival.
pub open spec fn with_shred(
    shreds: Map<(u64, u32, bool), ShredRecordView>,
    key: (u64, u32, bool),
    source: SourceId,
    at: u64,
) -> Map<(u64, u32, bool), ShredRecordView> {
    shreds.insert(
        key,
        if shreds.contains_key(key) {
            shreds[key].with(source, at)
        } else {
            ShredRecordView::first(source, at)
        },
    )
}

/// Records of slots with one more shred.
pub open spec fn with_slot_shred(slots: Map<u64, SlotRecordView>, slot: u64, at: u64) -> Map<
    u64,
    SlotRecordView,
> {
    slots.insert(
        slot,
        if slots.contains_key(slot) {
            slots[slot].with_shred(at)
        } else {
            SlotRecordView::of_shred(at)
        },
    )
}

/// Records of slots with one more sign of a slot.
pub open spec fn with_slot_event(
    slots: Map<u64, SlotRecordView>,
    slot: u64,
    source: SourceId,
    at: u64,
) -> Map<u64, SlotRecordView> {
    slots.insert(
        slot,
        if slots.contains_key(slot) {
            slots[slot].with_event(source, at)
        } else {
            SlotRecordView::of_event(source, at)
        },
    )
}

/// Lists of latencies with one more at the end of one of them.
pub open spec fn with_latency(lists: Map<u64, Seq<u64>>, source: u64, latency_ns: u64) -> Map<
    u64,
    Seq<u64>,
> {
    lists.insert(
        source,
        if lists.contains_key(source) {
            lists[source].push(latency_ns)
        } else {
            seq![latency_ns]
        },
    )
}

/// `DashMap::new`: the map holds nothing.
#[verifier::external_body]
pub(crate) fn new_shreds() -> (map: DashMap<(u64, u32, bool), ShredRecord>)
    ensures
        keys::holds_nothing(shred_records(map)),
{
    DashMap::new()
}

/// `DashMap::new`: the map holds nothing.
#[verifier::external_body]
pub(crate) fn new_slots() -> (map: DashMap<u64, SlotRecord>)
    ensures
        keys::holds_nothing(slot_records(map)),
{
    DashMap::new()
}

/// `DashMap::new`: the map holds nothing.
#[verifier::external_body]
pub(crate) fn new_latencies() -> (map: DashMap<u64, Vec<u64>>)
    ensures
        keys::holds_nothing(latency_lists(map)),
{
    DashMap::new()
}

/// `DashMap::entry`, `Entry::and_modify` and `Entry::or_insert_with`: the record under the key is
/// changed by `ShredRecord::arrive`, or, where there is none, `ShredRecord::first` is put there.
/// Nothing else changes.
#[verifier::external_body]
pub(crate) fn put_shred(
    map: &mut DashMap<(u64, u32, bool), ShredRecord>,
    key: (u64, u32, bool),
    source: SourceId,
    at: u64,
)
    ensures
        shred_records(*final(map)) == with_shred(shred_records(*old(map)), key, source, at),
{
    map.entry(key)
        .and_modify(|record| record.arrive(source, at))
        .or_insert_with(|| ShredRecord::first(source, at));
}

/// `DashMap::entry`, `Entry::and_modify` and `Entry::or_insert_with`: the record under the slot is
/// changed by `SlotRecord::note_shred`, or, where there is none, `SlotRecord::of_shred` is put
/// there. Nothing else changes.
#[verifier::external_body]
pub(crate) fn put_slot_shred(map: &mut DashMap<u64, SlotRecord>, slot: u64, at: u64)
    ensures
        slot_records(*final(map)) == with_slot_shred(slot_records(*old(map)), slot, at),
{
    map.entry(slot)
        .and_modify(|record| record.note_shred(at))
        .or_insert_with(|| SlotRecord::of_shred(at));
}

/// `DashMap::entry`, `Entry::and_modify` and `Entry::or_insert_with`: the record under the slot is
/// changed by `SlotRecord::note_event`, or, where there is none, `SlotRecord::of_event` is put
/// there. Nothing else changes.
#[verifier::external_body]
pub(crate) fn put_slot_event(
    map: &mut DashMap<u64, SlotRecord>,
    slot: u64,
    source: SourceId,
    at: u64,
)
    ensures
        slot_records(*final(map)) == with_slot_event(slot_records(*old(map)), slot, source, at),
{
    map.entry(slot)
        .and_modify(|record| record.note_event(source, at))
        .or_insert_with(|| SlotRecord::of_event(source, at));
}

/// The latencies of a source of which there is one.
fn first_latency(latency_ns: u64) -> (latencies: Vec<u64>)
    ensures
        latencies@ == seq![latency_ns],
{
    let mut latencies: Vec<u64> = Vec::new();
    latencies.push(latency_ns);
    latencies
}

/// One more latency of a source.
fn add_latency(latencies: &mut Vec<u64>, latency_ns: u64)
    ensures
        final(latencies)@ == old(latencies)@.push(latency_ns),
{
    latencies.push(latency_ns);
}

/// `DashMap::entry`, `Entry::and_modify` and `Entry::or_insert_with`: the list under the source is
/// changed by `add_latency`, or, where there is none, `first_latency` is put there. Nothing else
/// changes.
#[verifier::external_body]
pub(crate) fn put_latency(map: &mut DashMap<u64, Vec<u64>>, source: u64, latency_ns: u64)
    ensures
        latency_lists(*final(map)) == with_latency(latency_lists(*old(map)), source, latency_ns),
{
    map.entry(source)
        .and_modify(|latencies| add_latency(latencies, latency_ns))
        .or_insert_with(|| first_latency(latency_ns));
}

/// `DashMap::len`: how many keys the map has.
#[verifier::external_body]
pub(crate) fn count_shreds(map: &DashMap<(u64, u32, bool), ShredRecord>) -> (count: usize)
    ensures
        keys::counts_keys(count as nat, shred_records(*map)),
{
    map.len()
}

/// `DashMap::len`: how many keys the map has.
#[verifier::external_body]
pub(crate) fn count_slots(map: &DashMap<u64, SlotRecord>) -> (count: usize)
    ensures
        keys::counts_keys(count as nat, slot_records(*map)),
{
    map.len()
}

/// `DashMap::iter`, of which the keys are taken: each key of the map once. The order is not stated.
#[verifier::external_body]
pub(crate) fn list_shreds(map: &DashMap<(u64, u32, bool), ShredRecord>) -> (list: Vec<
    (u64, u32, bool),
>)
    ensures
        keys::lists_keys(list@, shred_records(*map)),
{
    map.iter().map(|entry| *entry.key()).collect()
}

/// `DashMap::iter`, of which the keys are taken: each key of the map once. The order is not stated.
#[verifier::external_body]
pub(crate) fn list_slots(map: &DashMap<u64, SlotRecord>) -> (list: Vec<u64>)
    ensures
        keys::lists_keys(list@, slot_records(*map)),
{
    map.iter().map(|entry| *entry.key()).collect()
}

/// `DashMap::get`, of which a copy is taken: what the map holds under the key.
#[verifier::external_body]
pub(crate) fn get_shred(map: &DashMap<(u64, u32, bool), ShredRecord>, key: (u64, u32, bool)) -> (found:
    Option<ShredRecord>)
    ensures
        match found {
            Some(record) => shred_records(*map).contains_key(key) && shred_records(*map)[key]
                == record@,
            None => !shred_records(*map).contains_key(key),
        },
{
    map.get(&key).map(|record| record.copy())
}

/// `DashMap::get`, of which a copy is taken: what the map holds under the slot.
#[verifier::external_body]
pub(crate) fn get_slot(map: &DashMap<u64, SlotRecord>, slot: u64) -> (found: Option<SlotRecord>)
    ensures
        match found {
            Some(record) => slot_records(*map).contains_key(slot) && slot_records(*map)[slot]
                == record@,
            None => !slot_records(*map).contains_key(slot),
        },
{
    map.get(&slot).map(|record| record.copy())
}

/// `DashMap::get`, of which a copy is taken: what the map holds under the source's number.
#[verifier::external_body]
pub(crate) fn get_latencies(map: &DashMap<u64, Vec<u64>>, source: u64) -> (found: Option<Vec<u64>>)
    ensures
        match found {
            Some(latencies) => latency_lists(*map).contains_key(source) && latency_lists(
                *map,
            )[source] == latencies@,
            None => !latency_lists(*map).contains_key(source),
        },
{
    map.get(&source).map(|latencies| latencies.clone())
}

} // verus!
