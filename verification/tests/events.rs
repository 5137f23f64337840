use std::collections::HashSet;

use shredwatch::clock::{elapsed_ns, saturate_ns};
use shredwatch::config::{
    active_sources, default_silence_timeout, default_true, log_path, source_name, Config,
    DoubleZeroConfig, JitoConfig, PcapConfig, RawUdpConfig, SourceKind, SourcesConfig,
    YellowstoneConfig,
};
use shredwatch::registry::SourceId;
use shredwatch::run::{Aggregator, SilenceMonitor, Verdict};

fn limited(start: Option<u64>, end: Option<u64>) -> Aggregator {
    let config = Config { start_slot: start, end_slot: end, ..Config::default() };
    Aggregator::new(config.slot_range(), None)
}

#[test]
fn without_limits_everything_is_recorded() {
    let mut run = limited(None, None);
    for slot in [0, 5, u64::MAX] {
        assert_eq!(run.on_shred(slot), Verdict::Record);
        assert_eq!(run.on_slot_event(slot), Verdict::Record);
    }
}

#[test]
fn a_run_waits_for_its_first_slot() {
    let mut run = limited(Some(10), Some(12));
    assert_eq!(run.on_shred(9), Verdict::Wait);
    assert_eq!(run.on_slot_event(9), Verdict::Wait);
    assert_eq!(run.on_shred(10), Verdict::Record);
    assert_eq!(run.on_shred(12), Verdict::Record);
    assert_eq!(run.on_shred(9), Verdict::Wait);
}

#[test]
fn a_start_that_is_past_is_noticed_once() {
    let mut run = limited(Some(10), None);
    // a sign of a slot does not count as the start
    assert_eq!(run.on_slot_event(11), Verdict::Record);
    assert_eq!(run.on_shred(11), Verdict::StartMissed);
    assert_eq!(run.on_shred(11), Verdict::Record);
}

#[test]
fn the_end_is_reached_once_and_stragglers_are_recorded() {
    let mut run = limited(None, Some(20));
    assert_eq!(run.on_shred(20), Verdict::Record);
    assert_eq!(run.on_slot_event(21), Verdict::EndReached);
    assert_eq!(run.on_shred(22), Verdict::Ignore);
    assert_eq!(run.on_shred(20), Verdict::Record);
    assert_eq!(run.on_slot_event(23), Verdict::Ignore);
}

#[test]
fn only_the_slots_of_a_leader_are_recorded() {
    let range = Config { end_slot: Some(20), ..Config::default() }.slot_range();
    let mut run = Aggregator::new(range, Some(HashSet::from([4, 8, 30])));
    assert_eq!(run.on_shred(4), Verdict::Record);
    assert_eq!(run.on_shred(5), Verdict::Wait);
    assert_eq!(run.on_slot_event(8), Verdict::Record);
    assert_eq!(run.on_slot_event(9), Verdict::Wait);
    assert_eq!(run.on_shred(30), Verdict::EndReached);
}

#[test]
fn silence_ends_a_run() {
    let mut monitor = SilenceMonitor::new(3);
    assert!(!monitor.on_second(true));
    assert!(!monitor.on_second(false));
    assert!(!monitor.on_second(false));
    assert!(!monitor.on_second(true));
    assert!(!monitor.on_second(false));
    assert!(!monitor.on_second(false));
    assert!(monitor.on_second(false));
    assert!(SilenceMonitor::new(0).on_second(false));
    assert!(!SilenceMonitor::new(0).on_second(true));
}

#[test]
fn durations_are_without_effect_on_slot_ranges() {
    let timed = Config { duration_secs: 60, ..Config::default() };
    assert_eq!(timed.run_seconds(), Some(60));
    assert_eq!(Config::default().run_seconds(), None);
    let ranged = Config { duration_secs: 60, end_slot: Some(1), ..Config::default() };
    assert_eq!(ranged.run_seconds(), None);
    let range = ranged.slot_range();
    assert!(range.limited && !range.start_given);
    assert_eq!((range.start, range.end), (0, 1));
}

#[test]
fn defaults_of_the_configuration() {
    assert_eq!(default_silence_timeout(), 30);
    assert!(default_true());
    assert!(!Config::default().sources.any_source());
    assert!(!RawUdpConfig::default().enabled);
}

#[test]
fn log_paths() {
    let file = |s: &str| Some(s.to_string());
    assert_eq!(log_path(true, file("a"), &"b".to_string()), None);
    assert_eq!(log_path(false, file("a"), &"b".to_string()), file("a"));
    assert_eq!(log_path(false, None, &"b".to_string()), file("b"));
    assert_eq!(log_path(false, None, &String::new()), None);
}

#[test]
fn names_of_sources() {
    assert_eq!(source_name("mine", "Raw UDP", 1, 3), "mine");
    assert_eq!(source_name("", "Raw UDP", 0, 1), "Raw UDP");
    assert_eq!(source_name("", "Raw UDP", 1, 3), "Raw UDP 2");
}

#[test]
fn a_plan_numbers_the_streams_of_enabled_sources() {
    let udp = |name: &str, enabled| RawUdpConfig {
        name: name.to_string(),
        enabled,
        ..RawUdpConfig::default()
    };
    let sources = SourcesConfig {
        raw_udp: vec![udp("", true), udp("off", false), udp("", true)],
        jito: vec![JitoConfig {
            name: "J".to_string(),
            enabled: true,
            proxy_grpc_addr: "http://localhost:1".to_string(),
            ..JitoConfig::default()
        }],
        doublezero: vec![DoubleZeroConfig { enabled: true, ..DoubleZeroConfig::default() }],
        yellowstone: vec![
            YellowstoneConfig {
                name: "Y".to_string(),
                enabled: true,
                account_pubkey: "key".to_string(),
                ..YellowstoneConfig::default()
            },
            YellowstoneConfig {
                enabled: true,
                account_pubkey: "key".to_string(),
                account_name: "Token Program".to_string(),
                ..YellowstoneConfig::default()
            },
        ],
        pcap: vec![PcapConfig { enabled: true, ..PcapConfig::default() }],
    };
    assert!(sources.any_source());
    let plan = sources.plan();
    let seen: Vec<(SourceKind, usize, &str, bool)> =
        plan.iter().map(|p| (p.kind, p.place, p.name.as_str(), p.active)).collect();
    assert_eq!(
        seen,
        vec![
            (SourceKind::RawUdp, 0, "Raw UDP 1", true),
            (SourceKind::RawUdp, 2, "Raw UDP 2", true),
            (SourceKind::JitoShreds, 0, "J", false),
            (SourceKind::JitoEntries, 0, "J (entries)", true),
            (SourceKind::DoubleZero, 0, "DoubleZero", true),
            (SourceKind::Yellowstone, 0, "Y", true),
            (SourceKind::YellowstoneAccount, 0, "Y (account)", true),
            (SourceKind::Yellowstone, 1, "Yellowstone 2", true),
            (SourceKind::YellowstoneAccount, 1, "Token Program", true),
            (SourceKind::Pcap, 0, "Raw Capture", true),
        ]
    );
    for (n, planned) in plan.iter().enumerate() {
        assert_eq!(planned.id, SourceId::Instance(n as u32));
    }
    let shreds: Vec<u32> = active_sources(&plan, true).iter().map(|s| s.0.number()).collect();
    assert_eq!(shreds, vec![0, 1, 4, 9]);
    let entries: Vec<u32> = active_sources(&plan, false).iter().map(|s| s.0.number()).collect();
    assert_eq!(entries, vec![3, 5, 6, 7, 8]);
}

#[test]
fn a_plan_without_sources_is_empty() {
    let sources = SourcesConfig {
        raw_udp: vec![RawUdpConfig::default()],
        ..SourcesConfig::default()
    };
    assert!(!sources.any_source());
    assert!(sources.plan().is_empty());
}

#[test]
fn elapsed_time_goes_on() {
    assert_eq!(saturate_ns(5), 5);
    assert_eq!(saturate_ns(u128::MAX), u64::MAX);
    assert_eq!(saturate_ns(u64::MAX as u128 + 1), u64::MAX);
    let started = std::time::Instant::now();
    let first = elapsed_ns(started);
    while started.elapsed() < std::time::Duration::from_millis(3) {}
    let second = elapsed_ns(started);
    assert!(second >= 3_000_000 && second >= first);
}
