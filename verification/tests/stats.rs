use std::sync::Arc;

use shredwatch::binary64::Binary64;
use shredwatch::blocks::compute_block_stats;
use shredwatch::registry::{
    GrpcLatencyEvent, ReconstructionEvent, Registry, ShredEvent, SlotEvent, SourceId,
};
use shredwatch::shred::{ShredKey, ShredType};
use shredwatch::stats::{compute_percentiles, compute_stats, percentile, Percentiles, SourceStats};

const A: SourceId = SourceId::Instance(0);
const B: SourceId = SourceId::Instance(1);
const C: SourceId = SourceId::Instance(2);

fn shred(source: SourceId, slot: u64, index: u32, shred_type: ShredType, at: u64) -> ShredEvent {
    ShredEvent {
        source,
        key: ShredKey { slot, index, shred_type },
        received_at: at,
        payload: Arc::new(vec![]),
    }
}

fn binary(p: f64) -> Binary64 {
    let bits = p.to_bits();
    Binary64 {
        mantissa: (bits & 0xf_ffff_ffff_ffff) | 0x10_0000_0000_0000,
        exponent: (bits >> 52) as i32 - 1075,
    }
}

fn float_percentile(sorted: &[u64], p: f64) -> u64 {
    if sorted.is_empty() {
        return 0;
    }
    let idx = ((sorted.len() as f64 * p / 100.0).ceil() as usize).saturating_sub(1);
    sorted[idx.min(sorted.len() - 1)]
}

#[test]
fn percentiles_of_nothing_are_zero() {
    assert_eq!(compute_percentiles(vec![]), Percentiles::default());
    assert_eq!(Percentiles::default().max, 0);
    assert_eq!(percentile(&[], binary(50.0)), 0);
}

#[test]
fn percentiles_of_a_hundred() {
    let v: Vec<u64> = (1..=100).rev().collect();
    assert_eq!(
        compute_percentiles(v),
        Percentiles { p50: 50, p90: 90, p95: 95, p99: 99, p99_9: 100, max: 100, min: 1, mean: 50 }
    );
}

#[test]
fn percentiles_of_one_value() {
    assert_eq!(
        compute_percentiles(vec![7]),
        Percentiles { p50: 7, p90: 7, p95: 7, p99: 7, p99_9: 7, max: 7, min: 7, mean: 7 }
    );
}

#[test]
fn the_mean_of_large_values_does_not_overflow() {
    assert_eq!(compute_percentiles(vec![u64::MAX, u64::MAX]).mean, u64::MAX);
}

#[test]
fn percentiles_stand_in_order() {
    let p = compute_percentiles(vec![5, 900, 3, 3, 17, 44, 1000]);
    assert!(p.min <= p.p50 && p.p50 <= p.p90 && p.p90 <= p.p95);
    assert!(p.p95 <= p.p99 && p.p99 <= p.p99_9 && p.p99_9 <= p.max);
    assert!(p.min <= p.mean && p.mean <= p.max);
}

#[test]
fn percentiles_agree_with_double_precision() {
    let all: Vec<u64> = (0..60_000).collect();
    for len in (1..60_000).step_by(37).chain([1000, 2000, 41_000, 50_000]) {
        for p in [0.1, 1.0, 33.3, 50.0, 90.0, 95.0, 99.0, 99.9, 99.99, 100.0, 250.0] {
            assert_eq!(
                percentile(&all[..len], binary(p)),
                float_percentile(&all[..len], p),
                "{len} {p}"
            );
        }
    }
}

#[test]
fn a_rank_is_rounded_as_double_precision_does() {
    // 41000 * 99.9 / 100 is 40959, but comes out just above it
    let all: Vec<u64> = (1..=41_000).collect();
    assert_eq!(percentile(&all, binary(99.9)), 40_960);
    let all: Vec<u64> = (1..=1_000).collect();
    assert_eq!(percentile(&all, binary(99.9)), 999);
}

#[test]
fn extreme_percentages() {
    let all = [1, 2, 3];
    assert_eq!(percentile(&all, binary(f64::MAX)), 3);
    assert_eq!(percentile(&all, binary(f64::MIN_POSITIVE)), 1);
}

fn find(sources: &[SourceStats], id: SourceId) -> &SourceStats {
    sources.iter().find(|s| s.id == id).unwrap()
}

fn names(ids: &[SourceId]) -> Vec<(SourceId, String)> {
    ids.iter().map(|id| (*id, format!("source {}", id.number()))).collect()
}

#[test]
fn sources_are_tallied() {
    let mut registry = Registry::new();
    registry.record_shred(&shred(A, 10, 0, ShredType::Data, 100));
    registry.record_shred(&shred(B, 10, 0, ShredType::Data, 130));
    registry.record_shred(&shred(B, 10, 0, ShredType::Data, 120));
    registry.record_shred(&shred(B, 11, 0, ShredType::Code, 200));
    registry.record_shred(&shred(A, 11, 0, ShredType::Code, 200));
    registry.record_shred(&shred(B, 12, 5, ShredType::Data, 300));
    let stats = compute_stats(&registry, &[], &names(&[A, B, C]), &[], 5_000_000_000);
    assert_eq!(stats.total_unique_shreds, 3);
    assert_eq!(stats.slot_stats.total_slots, 3);
    assert_eq!((stats.min_slot, stats.max_slot), (10, 12));
    assert_eq!(stats.duration_ns, 5_000_000_000);
    assert_eq!(stats.block_stats.total_slots, 0);

    let a = find(&stats.sources, A);
    assert_eq!(a.name, "source 0");
    assert_eq!((a.received, a.data_shreds, a.code_shreds), (2, 1, 1));
    assert_eq!((a.wins, a.missed, a.dupes), (2, 1, 0));
    assert_eq!(a.latency_ns, vec![0, 0]);

    let b = find(&stats.sources, B);
    assert_eq!((b.received, b.data_shreds, b.code_shreds), (3, 2, 1));
    assert_eq!((b.wins, b.missed, b.dupes), (2, 0, 1));
    let mut latencies = b.latency_ns.clone();
    latencies.sort();
    assert_eq!(latencies, vec![0, 0, 20]);

    let c = find(&stats.sources, C);
    assert_eq!((c.received, c.missed, c.wins), (0, 3, 0));
    assert!(c.latency_ns.is_empty());
    for s in &stats.sources {
        assert_eq!(s.received + s.missed, stats.total_unique_shreds);
        assert_eq!(s.data_shreds + s.code_shreds, s.received);
    }
}

#[test]
fn latencies_are_against_the_earliest_arrival_whatever_is_recorded_first() {
    let mut registry = Registry::new();
    registry.record_shred(&shred(A, 10, 0, ShredType::Data, 150));
    registry.record_shred(&shred(B, 10, 0, ShredType::Data, 100));
    let stats = compute_stats(&registry, &[], &names(&[A, B]), &[], 0);
    assert_eq!(find(&stats.sources, A).latency_ns, vec![50]);
    assert_eq!(find(&stats.sources, A).wins, 0);
    assert_eq!(find(&stats.sources, B).latency_ns, vec![0]);
    assert_eq!(find(&stats.sources, B).wins, 1);
}

#[test]
fn a_single_source_has_no_latency() {
    let mut registry = Registry::new();
    for index in 0..20 {
        registry.record_shred(&shred(A, 10, index, ShredType::Data, 100 - index as u64));
        registry.record_shred(&shred(A, 10, index, ShredType::Data, 50));
    }
    let stats = compute_stats(&registry, &[], &names(&[A]), &[], 0);
    assert_eq!(stats.sources[0].latency_ns, vec![0; 20]);
    assert_eq!(stats.sources[0].wins, 20);
    assert_eq!(stats.sources[0].dupes, 20);
}

#[test]
fn an_empty_registry_has_no_slots() {
    let stats = compute_stats(&Registry::new(), &[], &names(&[A]), &names(&[B]), 0);
    assert_eq!((stats.min_slot, stats.max_slot), (0, 0));
    assert_eq!(stats.sources[0].missed, 0);
    assert_eq!(stats.slot_stats.entry_sources[0].slots_seen, 0);
}

#[test]
fn entry_sources_are_measured_from_the_first_shred() {
    let mut registry = Registry::new();
    registry.record_shred(&shred(A, 10, 0, ShredType::Data, 100));
    registry.record_slot_event(SlotEvent { source: B, slot: 10, received_at: 175 });
    registry.record_shred(&shred(A, 11, 0, ShredType::Data, 300));
    registry.record_slot_event(SlotEvent { source: B, slot: 11, received_at: 290 });
    registry.record_slot_event(SlotEvent { source: C, slot: 12, received_at: 5 });
    let stats = compute_stats(&registry, &[], &[], &names(&[B, C]), 0);
    let b = &stats.slot_stats.entry_sources[0];
    let mut latencies = b.latency_ns.clone();
    latencies.sort();
    assert_eq!(b.slots_seen, 2);
    assert_eq!(latencies, vec![0, 75]);
    let c = &stats.slot_stats.entry_sources[1];
    assert_eq!(c.slots_seen, 1);
    assert_eq!(c.latency_ns, vec![0]);
    assert_eq!(stats.slot_stats.total_slots, 3);
    assert_eq!(stats.total_unique_shreds, 2);
}

#[test]
fn account_updates_are_listed_for_sources_that_have_any() {
    let mut registry = Registry::new();
    registry.record_grpc_latency(GrpcLatencyEvent { source: C, latency_ns: 8 });
    registry.record_grpc_latency(GrpcLatencyEvent { source: C, latency_ns: 6 });
    let stats = compute_stats(&registry, &[], &[], &names(&[B, C]), 0);
    assert_eq!(stats.grpc_overhead.len(), 1);
    assert_eq!(stats.grpc_overhead[0].id, C);
    assert_eq!(stats.grpc_overhead[0].samples, 2);
    assert_eq!(stats.grpc_overhead[0].latency_ns, vec![8, 6]);
}

fn block(source: SourceId, slot: u64, first: u64, done: u64) -> ReconstructionEvent {
    ReconstructionEvent {
        source,
        slot,
        reconstructable_at: done,
        first_source_shred_at: first,
        expected_data_shreds: 64,
        received_shreds: 70,
        recovered_data_shreds: 2,
        fec_sets_recovered: 1,
        entries: 10,
        transactions: 100,
        reconstruction_cpu_ns: 55,
    }
}

#[test]
fn blocks_are_compared_with_the_fastest_source() {
    let events = [
        block(A, 1, 100, 500),
        block(B, 1, 50, 450),
        block(A, 2, 700, 900),
        block(C, 2, 800, 900),
    ];
    let stats = compute_block_stats(&events, &names(&[A, B, SourceId::RawUdp]));
    assert_eq!(stats.total_slots, 2);
    let a = &stats.sources[0];
    assert_eq!((a.completed_slots, a.wins), (2, 1));
    assert_eq!(a.relative_latency_ns, vec![50, 0]);
    assert_eq!(a.assembly_latency_ns, vec![400, 200]);
    assert_eq!(a.reconstruction_cpu_ns, vec![55, 55]);
    assert_eq!((a.entries, a.transactions), (20, 200));
    assert_eq!((a.received_shreds, a.expected_data_shreds), (140, 128));
    assert_eq!((a.recovered_data_shreds, a.fec_sets_recovered), (4, 2));
    let b = &stats.sources[1];
    assert_eq!((b.completed_slots, b.wins), (1, 1));
    assert_eq!(b.assembly_latency_ns, vec![400]);
    assert_eq!(stats.sources[2].completed_slots, 0);
}

#[test]
fn percentiles_are_the_nearest_ranks() {
    for len in [1usize, 2, 3, 7, 10, 19, 20, 99, 100, 101, 199, 200, 1000, 1009, 100_000] {
        let values: Vec<u64> = (0..len as u64).map(|i| (i * 7919) % 1013).collect();
        let p = compute_percentiles(values.clone());
        for (percent, x) in [(50, p.p50), (90, p.p90), (95, p.p95), (99, p.p99)] {
            let up_to = |y: u64| 100 * values.iter().filter(|v| **v <= y).count();
            assert!(values.contains(&x));
            assert!(up_to(x) >= percent * len, "{len} {percent}");
            if let Some(below) = values.iter().filter(|v| **v < x).max() {
                assert!(up_to(*below) < percent * len, "{len} {percent}");
            }
        }
    }
}

#[test]
fn wins_are_the_zeros_and_arrivals_are_all_counted() {
    let mut registry = Registry::new();
    let arrivals = [
        (A, 0, 10), (B, 0, 12), (A, 0, 14), (B, 1, 5), (A, 1, 9), (B, 1, 4), (C, 2, 7), (A, 3, 8),
        (B, 3, 8), (A, 3, 9),
    ];
    for (source, index, at) in arrivals {
        registry.record_shred(&shred(source, 1, index, ShredType::Data, at));
    }
    let stats = compute_stats(&registry, &[], &names(&[A, B, C]), &[], 1);
    for (id, wins, recorded) in [(A, 2, 5), (B, 2, 4), (C, 1, 1)] {
        let s = find(&stats.sources, id);
        assert_eq!(s.wins, wins);
        assert_eq!(s.latency_ns.iter().filter(|ns| **ns == 0).count() as u64, s.wins);
        assert_eq!(s.received + s.dupes, recorded);
        assert_eq!(s.received + s.missed, stats.total_unique_shreds);
    }
}
