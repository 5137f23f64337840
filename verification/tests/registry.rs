use std::sync::Arc;

use shredwatch::registry::{GrpcLatencyEvent, Registry, ShredEvent, SlotEvent, SourceId};
use shredwatch::shred::{ShredKey, ShredType};

const A: SourceId = SourceId::Instance(0);
const B: SourceId = SourceId::Instance(1);

fn shred(source: SourceId, slot: u64, index: u32, at: u64) -> ShredEvent {
    ShredEvent {
        source,
        key: ShredKey { slot, index, shred_type: ShredType::Data },
        received_at: at,
        payload: Arc::new(vec![]),
    }
}

#[test]
fn a_new_registry_is_empty() {
    let registry = Registry::new();
    assert_eq!(registry.unique_shreds(), 0);
    assert_eq!(registry.slots_seen(), 0);
    assert!(registry.shred_keys().is_empty());
    assert!(registry.slot_record(1).is_none());
    assert!(registry.grpc_latencies_of(A).is_none());
    assert!(registry.start_time() <= std::time::Instant::now());
}

#[test]
fn the_first_sight_is_the_earliest_arrival() {
    let mut registry = Registry::new();
    registry.record_shred(&shred(A, 4, 1, 100));
    registry.record_shred(&shred(B, 4, 1, 60));
    registry.record_shred(&shred(A, 4, 1, 80));
    assert_eq!(registry.unique_shreds(), 1);
    assert_eq!(registry.shred_keys(), vec![(4, 1, true)]);
    let record = registry.shred_record((4, 1, true)).unwrap();
    assert_eq!(record.first_seen, 60);
    assert_eq!(record.first_source, B);
    assert_eq!(record.arrivals, vec![(A, 100), (B, 60), (A, 80)]);
    assert!(registry.shred_record((4, 1, false)).is_none());
}

#[test]
fn of_equal_arrivals_the_one_recorded_first_counts() {
    let mut registry = Registry::new();
    registry.record_shred(&shred(A, 4, 1, 60));
    registry.record_shred(&shred(B, 4, 1, 60));
    assert_eq!(registry.shred_record((4, 1, true)).unwrap().first_source, A);
}

#[test]
fn slots_keep_their_earliest_shred() {
    let mut registry = Registry::new();
    registry.record_shred(&shred(A, 4, 1, 100));
    registry.record_shred(&shred(A, 4, 2, 90));
    registry.record_shred(&shred(A, 4, 3, 95));
    registry.record_shred(&shred(A, 5, 3, 1));
    assert_eq!(registry.slots_seen(), 2);
    assert_eq!(registry.unique_shreds(), 4);
    assert_eq!(registry.slot_record(4).unwrap().first_shred_at, 90);
    assert!(registry.slot_record(4).unwrap().entry_arrivals.is_empty());
    let mut slots = registry.slot_keys();
    slots.sort();
    assert_eq!(slots, vec![4, 5]);
}

#[test]
fn slot_events_keep_the_earliest_of_each_source() {
    let mut registry = Registry::new();
    let sign = |source, at| SlotEvent { source, slot: 7, received_at: at };
    registry.record_slot_event(sign(A, 50));
    registry.record_slot_event(sign(B, 60));
    registry.record_slot_event(sign(A, 40));
    registry.record_slot_event(sign(B, 70));
    let record = registry.slot_record(7).unwrap();
    assert_eq!(record.entry_arrivals, vec![(A, 40), (B, 60)]);
    // the first sign stands in for the first shred
    assert_eq!(record.first_shred_at, 50);
    registry.record_shred(&shred(A, 7, 0, 45));
    assert_eq!(registry.slot_record(7).unwrap().first_shred_at, 45);
}

#[test]
fn a_sign_stands_in_for_the_first_shred_until_one_comes() {
    let mut registry = Registry::new();
    registry.record_slot_event(SlotEvent { source: B, slot: 5, received_at: 1_000 });
    assert_eq!(registry.slot_record(5).unwrap().first_shred_at, 1_000);
    registry.record_slot_event(SlotEvent { source: A, slot: 5, received_at: 900 });
    assert_eq!(registry.slot_record(5).unwrap().first_shred_at, 1_000);
    registry.record_shred(&shred(A, 5, 0, 1_001_000));
    assert_eq!(registry.slot_record(5).unwrap().first_shred_at, 1_001_000);
    registry.record_shred(&shred(A, 5, 1, 1_002_000));
    registry.record_slot_event(SlotEvent { source: B, slot: 5, received_at: 10 });
    assert_eq!(registry.slot_record(5).unwrap().first_shred_at, 1_001_000);
    registry.record_shred(&shred(B, 5, 1, 1_000_500));
    assert_eq!(registry.slot_record(5).unwrap().first_shred_at, 1_000_500);
}

#[test]
fn latencies_of_account_updates_are_listed_in_order() {
    let mut registry = Registry::new();
    for latency_ns in [9, 3, 3] {
        registry.record_grpc_latency(GrpcLatencyEvent { source: A, latency_ns });
    }
    registry.record_grpc_latency(GrpcLatencyEvent { source: SourceId::RawUdp, latency_ns: 1 });
    assert_eq!(registry.grpc_latencies_of(A), Some(vec![9, 3, 3]));
    assert_eq!(registry.grpc_latencies_of(SourceId::RawUdp), Some(vec![1]));
    assert_eq!(registry.grpc_latencies_of(B), None);
}
