use std::collections::HashSet;

use shredwatch::interface::inet_address;
use shredwatch::leader::{
    checked_leader_slots, epoch_position, leader_slots, slot_indices, Json, LeaderError, RpcResponse,
};
use shredwatch::logfile::{label, log_entry};
use shredwatch::pcap::{
    extract_src_ip, extract_udp_payload, port_filter, route_matches, Capture, PcapRoute,
};
use shredwatch::registry::{ShredRecord, SourceId};
use shredwatch::shred::ShredType;
use shredwatch::yellowstone::{
    on_account, on_slot_status, stream_request, subscribes_to_account, EntryRecord, EntryTracker,
    SlotFilter, PROCESSED,
    SLOT_FIRST_SHRED_RECEIVED,
};

const A: SourceId = SourceId::Instance(0);
const B: SourceId = SourceId::Instance(1);

fn frame(payload: &[u8], options: usize) -> Vec<u8> {
    let mut b = vec![0u8; 14];
    b[12] = 0x08;
    let mut ip = vec![0u8; 20 + options];
    ip[0] = 0x40 | (5 + options / 4) as u8;
    ip[9] = 17;
    ip[12..16].copy_from_slice(&[10, 1, 2, 3]);
    b.extend(ip);
    let mut udp = vec![0u8; 8];
    udp[4..6].copy_from_slice(&(8 + payload.len() as u16).to_be_bytes());
    b.extend(udp);
    b.extend(payload);
    b
}

fn shred_bytes() -> Vec<u8> {
    let mut b = vec![0u8; 90];
    b[64] = 0x96;
    b[65] = 7;
    b[73] = 3;
    b
}

fn route(id: u32, only: &[u32], never: &[u32]) -> PcapRoute {
    PcapRoute {
        source_id: SourceId::Instance(id),
        include_ips: HashSet::from_iter(only.iter().copied()),
        exclude_ips: HashSet::from_iter(never.iter().copied()),
    }
}

const IP: u32 = 0x0a01_0203;

#[test]
fn source_addresses() {
    assert_eq!(extract_src_ip(&frame(&[], 0)), Some(IP));
    assert_eq!(extract_src_ip(&[0; 29]), None);
}

#[test]
fn udp_payloads() {
    assert_eq!(extract_udp_payload(&frame(b"hello", 0)).unwrap(), b"hello");
    assert_eq!(extract_udp_payload(&frame(b"hello", 8)).unwrap(), b"hello");
    assert_eq!(extract_udp_payload(&frame(b"", 0)).unwrap(), b"");
    // padding behind the payload does not belong to it
    let mut padded = frame(b"hello", 0);
    padded.extend([0; 9]);
    assert_eq!(extract_udp_payload(&padded).unwrap(), b"hello");
}

#[test]
fn frames_without_a_udp_payload() {
    let refused = |change: fn(&mut Vec<u8>)| {
        let mut b = frame(b"hello", 0);
        change(&mut b);
        extract_udp_payload(&b).is_none()
    };
    assert!(!refused(|_| {}));
    assert!(refused(|b| b.truncate(41)));
    assert!(refused(|b| b[12] = 0x86));
    assert!(refused(|b| b[14] = 0x44));
    assert!(refused(|b| b[14] = 0x4f));
    assert!(refused(|b| b[23] = 6));
    // a later fragment, and a first one; that a packet may not be fragmented does not matter
    assert!(refused(|b| b[21] = 1));
    assert!(refused(|b| b[20] = 0x20));
    assert!(!refused(|b| b[20] = 0x40));
    // a length that the frame does not hold
    assert!(refused(|b| b[39] += 1));
    // a length below that of the header is an empty payload
    assert!(!refused(|b| b[39] = 3));
}

#[test]
fn routes_look_at_addresses() {
    assert!(route_matches(&route(0, &[], &[]), None));
    assert!(route_matches(&route(0, &[], &[]), Some(1)));
    assert!(!route_matches(&route(0, &[1], &[]), None));
    assert!(route_matches(&route(0, &[1], &[]), Some(1)));
    assert!(!route_matches(&route(0, &[1], &[]), Some(2)));
    assert!(!route_matches(&route(0, &[], &[1]), Some(1)));
    assert!(route_matches(&route(0, &[], &[1]), Some(2)));
    assert!(!route_matches(&route(0, &[1], &[1]), Some(1)));
}

#[test]
fn a_capture_hands_shreds_to_their_routes() {
    let routes = vec![route(5, &[], &[]), route(6, &[1], &[]), route(7, &[IP], &[])];
    let mut capture = Capture::new(routes);
    let events = capture.on_frame(&frame(&shred_bytes(), 0), 99);
    let seen: Vec<SourceId> = events.iter().map(|e| e.source).collect();
    assert_eq!(seen, vec![SourceId::Instance(5), SourceId::Instance(7)]);
    assert_eq!(events[0].key.slot, 7);
    assert_eq!(events[0].key.index, 3);
    assert_eq!(events[1].received_at, 99);
    assert_eq!(*events[1].payload, shred_bytes());
    assert!(capture.on_frame(&frame(b"short", 0), 1).is_empty());
    assert!(capture.on_frame(&[], 1).is_empty());
    assert_eq!((capture.packets, capture.parsed), (3, 1));
    assert_eq!(capture.matched, vec![1, 0, 1]);
}

#[test]
fn a_capture_counts_what_each_route_gets() {
    let routes = vec![route(5, &[], &[]), route(6, &[], &[IP]), route(7, &[IP], &[])];
    let mut capture = Capture::new(routes);
    assert_eq!(capture.matched, vec![0, 0, 0]);
    let here = frame(&shred_bytes(), 0);
    let mut elsewhere = here.clone();
    elsewhere[26] ^= 1;
    for sent in [&here, &elsewhere, &here, &frame(b"short", 0)] {
        let before: u64 = capture.matched.iter().sum();
        let events = capture.on_frame(sent, 1);
        assert_eq!(capture.matched.iter().sum::<u64>() - before, events.len() as u64);
    }
    assert_eq!((capture.packets, capture.parsed), (4, 3));
    assert_eq!(capture.matched, vec![3, 1, 2]);
}

#[test]
fn the_filter_names_its_port() {
    let ops = port_filter(8001);
    assert_eq!(ops.len(), 11);
    assert_eq!((ops[8].code, ops[8].jt, ops[8].jf, ops[8].k), (0x15, 0, 1, 8001));
}

fn entry(at: u64) -> EntryRecord {
    EntryRecord { starting_tx_index: 0, tx_count: 1, received_at: at }
}

#[test]
fn slot_status_updates() {
    let event = on_slot_status(SLOT_FIRST_SHRED_RECEIVED, 8, A, 5).unwrap();
    assert_eq!((event.source, event.slot, event.received_at), (A, 8, 5));
    assert!(on_slot_status(0, 8, A, 5).is_none());
}

#[test]
fn accounts_are_subscribed_to_where_they_are_given() {
    assert!(subscribes_to_account("Token", Some(A)));
    assert!(!subscribes_to_account("", Some(A)));
    assert!(!subscribes_to_account("Token", None));
}

#[test]
fn a_stream_is_asked_for_slots_and_no_more_without_an_account() {
    let all = SlotFilter { filter_by_commitment: None, interslot_updates: Some(true) };
    for (account, source) in [("", Some(A)), ("Token", None), ("", None)] {
        let request = stream_request(account, source, "");
        assert_eq!(request.slots, vec![("bench".to_string(), all)]);
        assert!(request.accounts.is_empty() && request.entry.is_empty());
        assert_eq!(request.commitment, None);
        assert_eq!(request.x_token, None);
    }
}

#[test]
fn a_stream_is_asked_for_an_account_and_the_entries() {
    let request = stream_request("Token", Some(A), "abc");
    assert_eq!(request.slots.len(), 1);
    assert_eq!(request.accounts.len(), 1);
    assert_eq!(request.accounts[0].0, "bench_account");
    assert_eq!(request.accounts[0].1.account, vec!["Token".to_string()]);
    assert!(request.accounts[0].1.owner.is_empty());
    assert_eq!(request.entry, vec!["bench_entry".to_string()]);
    assert_eq!(request.commitment, Some(PROCESSED));
    assert_eq!(PROCESSED, 0);
    assert_eq!(request.x_token.as_deref(), Some("abc"));
}

#[test]
fn account_updates_are_measured_from_the_last_entry_before() {
    let mut tracker = EntryTracker::default();
    for at in [10, 40, 20, 90] {
        tracker.on_entry(8, entry(at));
    }
    let (sign, latency) = on_account(&tracker, 8, false, Some(B), 50);
    assert_eq!(sign.map(|s| (s.source, s.slot, s.received_at)), Some((B, 8, 50)));
    assert_eq!(latency.map(|l| (l.source, l.latency_ns)), Some((B, 10)));
    // no entry before
    let (sign, latency) = on_account(&tracker, 8, false, Some(B), 9);
    assert!(sign.is_some() && latency.is_none());
    // no entry of the slot
    let (sign, latency) = on_account(&tracker, 9, false, Some(B), 50);
    assert!(sign.is_some() && latency.is_none());
    // what a stream starts with, and a stream without an account
    assert!(on_account(&tracker, 8, true, Some(B), 50).0.is_none());
    assert!(on_account(&tracker, 8, false, None, 50).0.is_none());
}

#[test]
fn entries_of_old_slots_are_forgotten() {
    let mut tracker = EntryTracker::default();
    tracker.on_entry(1000, entry(1));
    tracker.on_entry(1300, entry(2));
    assert_eq!(tracker.overhead_of(1000, 5), Some(4));
    tracker.on_entry(1301, entry(3));
    assert_eq!(tracker.overhead_of(1000, 5), None);
    assert_eq!(tracker.overhead_of(1300, 5), Some(3));
    // an entry that is too old already is not kept
    tracker.on_entry(1000, entry(4));
    assert_eq!(tracker.overhead_of(1000, 5), None);
}

#[test]
fn addresses_of_interfaces() {
    let output = "5: doublezero1: <UP> mtu 1476\n    link/gre 1.2.3.4 peer 5.6.7.8\n    inet 169.254.0.1/31 scope global doublezero1\n       valid_lft forever\n    inet 9.9.9.9/8 scope\n";
    assert_eq!(inet_address(output).as_deref(), Some("169.254.0.1"));
    assert_eq!(inet_address("  inet\t10.0.0.1"), None);
    assert_eq!(inet_address("inet   10.0.0.1"), Some("10.0.0.1".to_string()));
    assert_eq!(inet_address("x\r\n inet 10.0.0.1\r\n").as_deref(), Some("10.0.0.1"));
    assert_eq!(inet_address("    inet6 ::1/128\n"), None);
    assert_eq!(inet_address("inet "), None);
    assert_eq!(inet_address("inet /24"), Some(String::new()));
    assert_eq!(inet_address(""), None);
}

fn object(fields: Vec<(&str, Json)>) -> Json {
    Json::Object(fields.into_iter().map(|(name, value)| (name.to_string(), value)).collect())
}

fn reply(result: Json) -> RpcResponse {
    RpcResponse { result: Some(result), error: None }
}

#[test]
fn places_in_the_leader_schedule() {
    let schedule = reply(object(vec![
        ("other", Json::List(vec![Json::Unsigned(1)])),
        (
            "me",
            Json::List(vec![Json::Unsigned(4), Json::Text("x".to_string()), Json::Unsigned(8)]),
        ),
        ("odd", Json::Bool(true)),
    ]));
    assert_eq!(slot_indices(&schedule, "me"), Ok(vec![4, 8]));
    assert_eq!(slot_indices(&schedule, "nobody"), Err(LeaderError::NoSlots));
    assert_eq!(slot_indices(&schedule, "odd"), Err(LeaderError::NoSlots));
    assert_eq!(slot_indices(&reply(Json::Null), "me"), Err(LeaderError::NotAnObject));
    let none = RpcResponse { result: None, error: None };
    assert_eq!(slot_indices(&none, "me"), Err(LeaderError::NoResult));
    let failed = RpcResponse { result: None, error: Some(Json::Null) };
    assert_eq!(slot_indices(&failed, "me"), Err(LeaderError::Rpc));
}

#[test]
fn the_place_of_the_current_slot() {
    let info = |fields| epoch_position(&reply(object(fields)));
    assert_eq!(
        info(vec![("slotIndex", Json::Unsigned(3)), ("absoluteSlot", Json::Unsigned(103))]),
        Ok((103, 3))
    );
    assert_eq!(info(vec![("slotIndex", Json::Unsigned(3))]), Err(LeaderError::NoAbsoluteSlot));
    assert_eq!(
        info(vec![("absoluteSlot", Json::Unsigned(3)), ("slotIndex", Json::OtherNumber)]),
        Err(LeaderError::NoSlotIndex)
    );
    assert_eq!(epoch_position(&reply(Json::Null)), Err(LeaderError::NoAbsoluteSlot));
    let none = RpcResponse { result: None, error: None };
    assert_eq!(epoch_position(&none), Err(LeaderError::NoResult));
    let failed = RpcResponse { result: None, error: Some(Json::Null) };
    assert_eq!(epoch_position(&failed), Err(LeaderError::Rpc));
}

#[test]
fn slots_that_a_validator_leads() {
    let led = leader_slots(&vec![0, 9, 4, 9, 7], 105, 5).unwrap_or_else(|e| panic!("{e:?}"));
    assert_eq!(led.slots, HashSet::from([100, 104, 107, 109]));
    assert_eq!((led.upcoming, led.next), (2, 107));
    // the current slot is not to come
    assert!(matches!(leader_slots(&vec![5, 1, 1], 105, 5), Err(LeaderError::AllPast(2))));
}

#[test]
fn places_that_are_not_those_of_slots_are_refused() {
    let led = checked_leader_slots(&vec![0, 9, 4, 9, 7], 105, 5).unwrap_or_else(|e| panic!("{e:?}"));
    assert_eq!(led.slots, HashSet::from([100, 104, 107, 109]));
    assert_eq!((led.upcoming, led.next), (2, 107));
    let fails = |places: Vec<u64>, absolute_slot: u64, slot_index: u64| {
        checked_leader_slots(&places, absolute_slot, slot_index).err()
    };
    assert_eq!(fails(vec![5, 1, 1], 105, 5), Some(LeaderError::AllPast(2)));
    assert_eq!(fails(vec![1], 4, 5), Some(LeaderError::PlaceBeyondSlot));
    assert_eq!(fails(vec![1, u64::MAX - 99], 105, 5), Some(LeaderError::SlotTooLarge));
    assert_eq!(fails(vec![1, u64::MAX - 100], 105, 5), None);
    assert_eq!(fails(vec![], 105, 105), Some(LeaderError::AllPast(0)));
}

#[test]
fn labels_of_sources() {
    let names = vec![(A, "alpha".to_string())];
    assert_eq!(label(&names, A), "alpha");
    assert_eq!(label(&names, B), "source_1");
    assert_eq!(label(&names, SourceId::Yellowstone), "source_3");
}

#[test]
fn log_entries_list_the_earliest_arrivals() {
    let record = ShredRecord {
        first_seen: 100,
        first_source: B,
        arrivals: vec![(A, 170), (B, 100), (A, 150), (SourceId::Instance(2), 120), (B, 300)],
    };
    let names = vec![(A, "alpha".to_string()), (B, "beta".to_string())];
    let entry = log_entry(9, 4, ShredType::Code, &record, &names);
    assert_eq!((entry.slot, entry.index, entry.first_seen_ns), (9, 4, 100));
    assert_eq!(entry.shred_type, "code");
    assert_eq!(entry.first_source, "beta");
    let seen: Vec<(&str, u64)> =
        entry.arrivals.iter().map(|a| (a.source.as_str(), a.delta_ns)).collect();
    assert_eq!(seen, vec![("beta", 0), ("source_2", 20), ("alpha", 50)]);
}
