use std::sync::Arc;

use reed_solomon_erasure::galois_8::ReedSolomon;
use shredwatch::reconstruction::ReconstructionTracker;
use shredwatch::registry::{ReconstructionEvent, ShredEvent, SourceId};
use shredwatch::shred::parse_shred_key;
use shredwatch::wire::{WireKind, WireShred};

const PROOF: u8 = 5;
const TRAILER: usize = 32 + 20 * PROOF as usize;
const COMPLETE: u8 = 0x40;
const LAST: u8 = 0xc0;

fn data(slot: u64, index: u32, set: u32, flags: u8, body: &[u8], signature: u8) -> Vec<u8> {
    let mut b = vec![0u8; 1203];
    b[..64].fill(signature);
    b[64] = 0x90 | PROOF;
    b[65..73].copy_from_slice(&slot.to_le_bytes());
    b[73..77].copy_from_slice(&index.to_le_bytes());
    b[79..83].copy_from_slice(&set.to_le_bytes());
    b[85] = flags;
    b[86..88].copy_from_slice(&((88 + body.len()) as u16).to_le_bytes());
    b[88..88 + body.len()].copy_from_slice(body);
    b
}

fn code(data: &[Vec<u8>], num_code: usize, slot: u64, set: u32, signature: u8) -> Vec<Vec<u8>> {
    let mut shards: Vec<Vec<u8>> = data.iter().map(|d| d[64..1203 - TRAILER].to_vec()).collect();
    let len = shards[0].len();
    for _ in 0..num_code {
        shards.push(vec![0; len]);
    }
    ReedSolomon::new(data.len(), num_code).unwrap().encode(&mut shards).unwrap();
    (0..num_code)
        .map(|position| {
            let mut b = vec![0u8; 1228];
            b[..64].fill(signature);
            b[64] = 0x60 | PROOF;
            b[65..73].copy_from_slice(&slot.to_le_bytes());
            b[73..77].copy_from_slice(&(set + position as u32).to_le_bytes());
            b[79..83].copy_from_slice(&set.to_le_bytes());
            b[83..85].copy_from_slice(&(data.len() as u16).to_le_bytes());
            b[85..87].copy_from_slice(&(num_code as u16).to_le_bytes());
            b[87..89].copy_from_slice(&(position as u16).to_le_bytes());
            b[89..89 + len].copy_from_slice(&shards[data.len() + position]);
            b
        })
        .collect()
}

fn batch(entries: u64) -> Vec<u8> {
    let mut out = entries.to_le_bytes().to_vec();
    for _ in 0..entries {
        out.extend([0u8; 48]);
    }
    out
}

fn event(payload: &[u8], at: u64) -> ShredEvent {
    ShredEvent {
        source: SourceId::RawUdp,
        key: parse_shred_key(payload).unwrap(),
        received_at: at,
        payload: Arc::new(payload.to_vec()),
    }
}

fn whole_slot(slot: u64) -> Vec<Vec<u8>> {
    let bytes = batch(3);
    vec![
        data(slot, 0, 0, 0, &bytes[..60], 1),
        data(slot, 1, 0, COMPLETE, &bytes[60..], 1),
        data(slot, 2, 0, LAST, &batch(1), 1),
    ]
}

#[test]
fn a_block_is_reported_when_its_last_shred_comes() {
    let mut tracker = ReconstructionTracker::default();
    let shreds = whole_slot(900);
    assert_eq!(tracker.record(&event(&shreds[2], 50)), None);
    assert_eq!(tracker.record(&event(&shreds[0], 20)), None);
    let report = tracker.record(&event(&shreds[1], 70)).unwrap();
    assert_eq!(
        ReconstructionEvent { reconstruction_cpu_ns: 0, ..report },
        ReconstructionEvent {
            source: SourceId::RawUdp,
            slot: 900,
            reconstructable_at: 70,
            first_source_shred_at: 20,
            expected_data_shreds: 3,
            received_shreds: 3,
            recovered_data_shreds: 0,
            fec_sets_recovered: 0,
            entries: 4,
            transactions: 0,
            reconstruction_cpu_ns: 0,
        }
    );
}

#[test]
fn a_block_is_reported_once() {
    let mut tracker = ReconstructionTracker::default();
    let shreds = whole_slot(900);
    let mut reports = 0;
    for _ in 0..3 {
        for shred in &shreds {
            reports += tracker.record(&event(shred, 1)).is_some() as u32;
        }
    }
    assert_eq!(reports, 1);
}

#[test]
fn sources_do_not_share_shreds() {
    let mut tracker = ReconstructionTracker::default();
    let shreds = whole_slot(900);
    tracker.record(&event(&shreds[0], 1));
    tracker.record(&event(&shreds[1], 1));
    let mut other = event(&shreds[2], 1);
    other.source = SourceId::Instance(0);
    assert_eq!(tracker.record(&other), None);
    assert!(tracker.record(&event(&shreds[2], 1)).is_some());
}

#[test]
fn missing_data_is_recovered_from_code() {
    let mut tracker = ReconstructionTracker::default();
    let shreds = whole_slot(7);
    let parity = code(&shreds, 3, 7, 0, 1);
    assert_eq!(tracker.record(&event(&parity[2], 10)), None);
    assert_eq!(tracker.record(&event(&shreds[1], 11)), None);
    let report = tracker.record(&event(&parity[0], 12)).unwrap();
    assert_eq!(report.received_shreds, 3);
    assert_eq!(report.recovered_data_shreds, 2);
    assert_eq!(report.fec_sets_recovered, 1);
    assert_eq!(report.expected_data_shreds, 3);
    assert_eq!(report.entries, 4);
    assert_eq!(report.first_source_shred_at, 10);
    assert_eq!(report.reconstructable_at, 12);
}

#[test]
fn code_alone_recovers_a_slot_of_two_sets() {
    let mut tracker = ReconstructionTracker::default();
    let bytes = batch(20);
    let first = vec![data(8, 0, 0, 0, &bytes[..500], 1), data(8, 1, 0, COMPLETE, &bytes[500..], 1)];
    let second = vec![data(8, 2, 2, LAST, &batch(2), 2)];
    let mut reports = vec![];
    for shred in code(&first, 2, 8, 0, 1).iter().chain(&code(&second, 1, 8, 2, 2)) {
        reports.extend(tracker.record(&event(shred, 5)));
    }
    assert_eq!(reports.len(), 1);
    assert_eq!(reports[0].entries, 22);
    assert_eq!(reports[0].recovered_data_shreds, 3);
    assert_eq!(reports[0].fec_sets_recovered, 2);
}

#[test]
fn a_shred_of_another_signature_is_not_admitted() {
    let mut tracker = ReconstructionTracker::default();
    let shreds = whole_slot(9);
    tracker.record(&event(&shreds[0], 1));
    tracker.record(&event(&shreds[1], 1));
    assert_eq!(tracker.record(&event(&data(9, 2, 0, LAST, &batch(1), 99), 2)), None);
    let report = tracker.record(&event(&shreds[2], 3)).unwrap();
    assert_eq!(report.received_shreds, 3);
    assert_eq!(report.reconstructable_at, 3);
}

#[test]
fn a_duplicate_does_not_count() {
    let mut tracker = ReconstructionTracker::default();
    let shreds = whole_slot(9);
    tracker.record(&event(&shreds[0], 5));
    tracker.record(&event(&shreds[0], 1));
    tracker.record(&event(&shreds[1], 6));
    let report = tracker.record(&event(&shreds[2], 7)).unwrap();
    assert_eq!(report.received_shreds, 3);
    assert_eq!(report.first_source_shred_at, 5);
}

#[test]
fn a_key_that_is_not_the_shreds_is_refused() {
    let mut tracker = ReconstructionTracker::default();
    let shreds = whole_slot(9);
    tracker.record(&event(&shreds[0], 5));
    tracker.record(&event(&shreds[1], 5));
    let mut wrong = event(&shreds[2], 5);
    wrong.key.index = 1;
    assert_eq!(tracker.record(&wrong), None);
    assert!(tracker.record(&event(&shreds[2], 5)).is_some());
}

#[test]
fn slots_too_far_behind_are_forgotten() {
    let mut tracker = ReconstructionTracker::default();
    let shreds = whole_slot(1000);
    tracker.record(&event(&shreds[0], 1));
    tracker.record(&event(&shreds[1], 1));
    tracker.record(&event(&data(1128, 0, 0, 0, &[], 1), 1));
    assert!(tracker.record(&event(&shreds[2], 1)).is_some());

    let mut tracker = ReconstructionTracker::default();
    tracker.record(&event(&shreds[0], 1));
    tracker.record(&event(&shreds[1], 1));
    tracker.record(&event(&data(1129, 0, 0, 0, &[], 1), 1));
    assert_eq!(tracker.record(&event(&shreds[2], 1)), None);
}

#[test]
fn a_batch_that_does_not_decode_gives_no_block() {
    let mut tracker = ReconstructionTracker::default();
    assert_eq!(tracker.record(&event(&data(3, 0, 0, LAST, &[1, 2, 3], 1), 1)), None);
    // an empty batch is a block without entries
    let report = tracker.record(&event(&data(4, 0, 0, LAST, &[], 1), 1)).unwrap();
    assert_eq!(report.entries, 0);
    // bytes behind the last batch
    assert_eq!(tracker.record(&event(&data(5, 1, 0, 0x80, &[], 1), 1)), None);
}

#[test]
fn parsed_shreds_show_their_parts() {
    let shred = WireShred::parse(&event(&data(3, 4, 2, LAST, &[1, 2, 3], 8), 1)).unwrap();
    assert!(shred.is_data() && !shred.is_code());
    assert!(shred.data_complete() && shred.last_in_slot());
    assert_eq!(shred.data().unwrap(), &[1, 2, 3]);
    assert_eq!(shred.erasure_shard().len(), 1203 - 64 - TRAILER);
    let shred = WireShred::parse(&event(&data(3, 4, 2, 0x80, &[1, 2, 3], 8), 1)).unwrap();
    assert!(!shred.data_complete() && !shred.last_in_slot());
    let parity = code(&[data(3, 4, 4, 0, &[], 8)], 2, 3, 4, 8);
    let shred = WireShred::parse(&event(&parity[1], 1)).unwrap();
    assert!(shred.is_code());
    assert!(shred.data().is_none());
    assert_eq!(shred.erasure_shard().len(), 1203 - 64 - TRAILER);
    assert!(matches!(shred.kind, WireKind::Code { num_data: 1, num_code: 2, position: 1 }));
}

#[test]
fn malformed_shreds_are_refused() {
    let good = data(3, 4, 2, 0, &[1], 8);
    let refused = |b: Vec<u8>| WireShred::parse(&event(&b, 1)).is_none();
    assert!(!refused(good.clone()));
    assert!(refused(good[..1202].to_vec()));
    // no Merkle proof
    let mut b = good.clone();
    b[64] = 0xa5;
    assert!(refused(b));
    // an index before its set
    assert!(refused(data(3, 1, 2, 0, &[1], 8)));
    // an index that no slot has
    assert!(refused(data(3, 32_768, 2, 0, &[1], 8)));
    // a size before the end of the header, and one beyond the shard
    let mut b = good.clone();
    b[86..88].copy_from_slice(&87u16.to_le_bytes());
    assert!(refused(b));
    let mut b = good.clone();
    b[86..88].copy_from_slice(&(1203 - TRAILER as u16 + 1).to_le_bytes());
    assert!(refused(b));
    // more shards than a set has
    let mut b = code(&[data(3, 4, 4, 0, &[], 8)], 1, 3, 4, 8).remove(0);
    assert!(!refused(b.clone()));
    b[85..87].copy_from_slice(&256u16.to_le_bytes());
    assert!(refused(b.clone()));
    b[85..87].copy_from_slice(&0u16.to_le_bytes());
    assert!(refused(b));
}

#[test]
fn a_recovered_shard_must_spell_its_shred() {
    let payload = data(3, 4, 2, LAST, &[1, 2, 3], 8);
    let shard = payload[64..1203 - TRAILER].to_vec();
    let read = |index: u32, proof: u8| {
        WireShred::from_recovered_data(shard.clone(), 3, index, 2, proof, false, vec![8; 64])
    };
    let shred = read(4, PROOF).unwrap();
    assert_eq!(shred.data().unwrap(), &[1, 2, 3]);
    assert!(shred.last_in_slot());
    assert!(read(5, PROOF).is_none());
    assert!(read(4, PROOF + 1).is_none());
}

fn orders(count: usize) -> Vec<Vec<usize>> {
    if count == 0 {
        return vec![vec![]];
    }
    let mut all = vec![];
    for shorter in orders(count - 1) {
        for at in 0..count {
            let mut order = shorter.clone();
            order.insert(at, count - 1);
            all.push(order);
        }
    }
    all
}

#[test]
fn the_order_of_data_shreds_does_not_matter() {
    let bytes = batch(3);
    let shreds = vec![
        data(40, 0, 0, 0, &bytes[..60], 1),
        data(40, 1, 0, COMPLETE, &bytes[60..], 1),
        data(40, 2, 2, 0, &[], 2),
        data(40, 3, 2, LAST, &batch(2), 2),
    ];
    for order in orders(4) {
        let mut tracker = ReconstructionTracker::default();
        for (k, at) in order.iter().enumerate() {
            let reported = tracker.record(&event(&shreds[*at], 100 + *at as u64));
            if k < 3 {
                assert_eq!(reported, None, "{order:?}");
            } else {
                let report = reported.unwrap();
                assert_eq!(
                    ReconstructionEvent { reconstruction_cpu_ns: 0, ..report },
                    ReconstructionEvent {
                        source: SourceId::RawUdp,
                        slot: 40,
                        reconstructable_at: 103,
                        first_source_shred_at: 100,
                        expected_data_shreds: 4,
                        received_shreds: 4,
                        recovered_data_shreds: 0,
                        fec_sets_recovered: 0,
                        entries: 5,
                        transactions: 0,
                        reconstruction_cpu_ns: 0,
                    },
                    "{order:?}"
                );
            }
        }
    }
}

#[test]
fn any_shreds_of_a_set_suffice() {
    let data_shreds = whole_slot(41);
    let parity = code(&data_shreds, 3, 41, 0, 1);
    let mut all = data_shreds.clone();
    all.extend(parity);
    for order in orders(6) {
        let chosen = &order[..3];
        let codes = chosen.iter().filter(|at| **at >= 3).count() as u32;
        let mut tracker = ReconstructionTracker::default();
        assert_eq!(tracker.record(&event(&all[chosen[0]], 7)), None);
        assert_eq!(tracker.record(&event(&all[chosen[1]], 5)), None);
        let report = tracker.record(&event(&all[chosen[2]], 6)).unwrap();
        assert_eq!(
            ReconstructionEvent { reconstruction_cpu_ns: 0, ..report },
            ReconstructionEvent {
                source: SourceId::RawUdp,
                slot: 41,
                reconstructable_at: 7,
                first_source_shred_at: 5,
                expected_data_shreds: 3,
                received_shreds: 3,
                recovered_data_shreds: codes,
                fec_sets_recovered: (codes > 0) as u32,
                entries: 4,
                transactions: 0,
                reconstruction_cpu_ns: 0,
            },
            "{chosen:?}"
        );
    }
}

#[test]
fn a_report_counts_every_shred_that_it_needed() {
    let mut tracker = ReconstructionTracker::default();
    let bytes = batch(3);
    let first = vec![
        data(42, 0, 0, 0, &bytes[..60], 1),
        data(42, 1, 0, COMPLETE, &bytes[60..], 1),
    ];
    let second = vec![data(42, 2, 2, LAST, &batch(2), 2)];
    let parity = code(&first, 2, 42, 0, 1);
    assert_eq!(tracker.record(&event(&second[0], 9)), None);
    assert_eq!(tracker.record(&event(&code(&second, 1, 42, 2, 2)[0], 3)), None);
    assert_eq!(tracker.record(&event(&parity[0], 4)), None);
    let report = tracker.record(&event(&first[1], 8)).unwrap();
    assert_eq!(report.expected_data_shreds, 3);
    assert_eq!(report.received_shreds, 4);
    assert_eq!(report.recovered_data_shreds, 1);
    assert!(report.received_shreds + report.recovered_data_shreds >= report.expected_data_shreds);
    assert_eq!((report.first_source_shred_at, report.reconstructable_at), (3, 9));
}

#[test]
fn the_shard_of_a_data_shred_spells_it() {
    let shred = WireShred::parse(&event(&data(3, 4, 2, LAST, &[1, 2, 3], 8), 1)).unwrap();
    let again = WireShred::from_recovered_data(
        shred.erasure_shard().to_vec(),
        shred.slot,
        shred.index,
        shred.fec_set_index,
        shred.proof_size,
        shred.resigned,
        shred.signature.clone(),
    )
    .unwrap();
    assert_eq!(again.data(), shred.data());
    assert_eq!(again.erasure_shard(), shred.erasure_shard());
    assert_eq!(again.kind, shred.kind);
    assert_eq!(again.data().unwrap(), &[1, 2, 3]);
}
