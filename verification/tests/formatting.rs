use shredwatch::binary64::Binary64;
use shredwatch::blocks::{BlockSourceStats, BlockStats};
use shredwatch::order::{order_by, order_down_by};
use shredwatch::registry::SourceId;
use shredwatch::report::build_report;
use shredwatch::stats::{
    BenchmarkStats, EntrySourceStats, GrpcOverheadStats, SlotStats, SourceStats,
};
use shredwatch::table::{
    block_latency_row, coverage, fmt_ns, grpc_overhead_row, num_fmt, share, win_rate,
};

fn float_ns(ns: u64) -> String {
    if ns == 0 {
        "  0 µs".to_string()
    } else if ns < 1_000 {
        format!("{:>3} ns", ns)
    } else if ns < 1_000_000 {
        format!("{:>5.1} µs", ns as f64 / 1_000.0)
    } else if ns < 1_000_000_000 {
        format!("{:>5.1} ms", ns as f64 / 1_000_000.0)
    } else {
        format!("{:>5.2}  s", ns as f64 / 1_000_000_000.0)
    }
}

fn numbers() -> Vec<u64> {
    let mut out = vec![0, 1, 9, 10, 99, 999, 1_000, u64::MAX, u64::MAX - 1];
    let mut x: u64 = 0x9e37_79b9_7f4a_7c15;
    for i in 0..4_000u32 {
        x = x.wrapping_mul(6_364_136_223_846_793_005).wrapping_add(1_442_695_040_888_963_407);
        out.push(x >> (i % 64));
    }
    out
}

#[test]
fn nanoseconds_in_their_unit() {
    assert_eq!(fmt_ns(0), "  0 µs");
    assert_eq!(fmt_ns(7), "  7 ns");
    assert_eq!(fmt_ns(999), "999 ns");
    assert_eq!(fmt_ns(1_000), "  1.0 µs");
    assert_eq!(fmt_ns(18_250), " 18.2 µs");
    assert_eq!(fmt_ns(999_950), "1000.0 µs");
    assert_eq!(fmt_ns(2_500_000), "  2.5 ms");
    assert_eq!(fmt_ns(1_234_567_890), " 1.23  s");
}

#[test]
fn nanoseconds_agree_with_double_precision() {
    for ns in numbers() {
        assert_eq!(fmt_ns(ns), float_ns(ns), "{ns}");
    }
    for ns in (1_000..1_000_000).step_by(50) {
        assert_eq!(fmt_ns(ns), float_ns(ns), "{ns}");
    }
    for ns in (1_000_000..1_000_000_000).step_by(49_950_000) {
        assert_eq!(fmt_ns(ns), float_ns(ns), "{ns}");
    }
    for ns in (0..2_000).map(|k| 1_000_000_000 + k * 5_000_000) {
        assert_eq!(fmt_ns(ns), float_ns(ns), "{ns}");
    }
}

#[test]
fn coverage_in_percent() {
    assert_eq!(coverage(0, 0), "  N/A");
    assert_eq!(coverage(5, 0), "  N/A");
    assert_eq!(coverage(0, 7), "  0.0%");
    assert_eq!(coverage(1, 8), " 12.5%");
    assert_eq!(coverage(7, 7), "100.0%");
}

#[test]
fn coverage_agrees_with_double_precision() {
    let all = numbers();
    for (part, whole) in all.iter().zip(all.iter().rev()) {
        if *whole > 0 {
            assert_eq!(
                coverage(*part, *whole),
                format!("{:>5.1}%", *part as f64 / *whole as f64 * 100.0),
                "{part} {whole}"
            );
        }
    }
    for whole in 1..120u64 {
        for part in 0..=whole {
            assert_eq!(
                coverage(part, whole),
                format!("{:>5.1}%", part as f64 / whole as f64 * 100.0)
            );
        }
    }
}

#[test]
fn numbers_in_groups() {
    assert_eq!(num_fmt(0), "0");
    assert_eq!(num_fmt(999), "999");
    assert_eq!(num_fmt(1_000), "1,000");
    assert_eq!(num_fmt(1_000_045), "1,000,045");
    assert_eq!(num_fmt(u64::MAX), "18,446,744,073,709,551,615");
    for n in numbers() {
        assert_eq!(num_fmt(n).replace(',', ""), n.to_string());
    }
}

#[test]
fn win_rates_are_of_all_shreds() {
    assert_eq!(win_rate(1, 8), "12.5%");
    assert_eq!(win_rate(0, 8), "0.0%");
    assert_eq!(win_rate(0, 0), "N/A");
}

#[test]
fn shares_are_in_whole_percent() {
    assert_eq!(share(2, 3), "2 (66%)");
    assert_eq!(share(1_234, 1_234), "1,234 (100%)");
    assert_eq!(share(0, 0), "0 (0%)");
    assert_eq!(share(u64::MAX, u64::MAX as u128 * 2), "18,446,744,073,709,551,615 (50%)");
}

#[test]
fn rounding_is_that_of_double_precision() {
    let view = |x: f64| {
        let bits = x.to_bits();
        ((bits & 0xf_ffff_ffff_ffff) | 0x10_0000_0000_0000, (bits >> 52) as i32 - 1075)
    };
    let seen = |x: Binary64| (x.mantissa, x.exponent);
    let all = numbers();
    for (a, b) in all.iter().zip(all.iter().skip(5)) {
        if *a == 0 || *b == 0 {
            continue;
        }
        assert_eq!(seen(Binary64::of(*a)), view(*a as f64));
        assert_eq!(seen(Binary64::of(*a).times(Binary64::of(*b))), view(*a as f64 * *b as f64));
        assert_eq!(seen(Binary64::of(*a).over(Binary64::of(*b))), view(*a as f64 / *b as f64));
        let quotient = *a as f64 / *b as f64;
        assert_eq!(Binary64::of(*a).over(Binary64::of(*b)).ceil(), quotient.ceil() as u64);
    }
    assert_eq!(Binary64::of(0), Binary64 { mantissa: 0, exponent: 0 });
    assert_eq!(Binary64::of(0).ceil(), 0);
}

#[test]
fn orders_keep_equals_in_place() {
    assert_eq!(order_by(&vec![3, 1, 2, 1]), vec![1, 3, 2, 0]);
    assert_eq!(order_down_by(&vec![3, 1, 3, 9]), vec![3, 0, 2, 1]);
    assert_eq!(order_by(&vec![]), Vec::<usize>::new());
    assert_eq!(order_down_by(&vec![0, u64::MAX]), vec![1, 0]);
}

fn source(name: &str, received: u64, wins: u64, latency_ns: Vec<u64>) -> SourceStats {
    SourceStats {
        id: SourceId::RawUdp,
        name: name.to_string(),
        received,
        data_shreds: received / 2,
        code_shreds: received - received / 2,
        wins,
        missed: 10 - received,
        dupes: 1,
        latency_ns,
    }
}

fn blocks(name: &str, completed_slots: u64, relative: u64) -> BlockSourceStats {
    BlockSourceStats {
        id: SourceId::RawUdp,
        name: name.to_string(),
        completed_slots,
        wins: 1,
        recovered_data_shreds: 1_000,
        fec_sets_recovered: 3,
        received_shreds: 4,
        expected_data_shreds: 5,
        entries: 6,
        transactions: 7,
        relative_latency_ns: vec![relative],
        assembly_latency_ns: vec![1_000 - relative],
        reconstruction_cpu_ns: vec![2_000],
    }
}

fn benchmark() -> BenchmarkStats {
    BenchmarkStats {
        sources: vec![
            source("slow", 8, 1, vec![500, 700]),
            source("fast", 6, 9, vec![0, 10]),
            source("even", 8, 1, vec![10]),
        ],
        total_unique_shreds: 10,
        slot_stats: SlotStats {
            total_slots: 2,
            entry_sources: vec![
                EntrySourceStats {
                    id: SourceId::RawUdp,
                    name: "late".to_string(),
                    slots_seen: 2,
                    latency_ns: vec![2_000_000, 3_000_000],
                },
                EntrySourceStats {
                    id: SourceId::RawUdp,
                    name: "none".to_string(),
                    slots_seen: 0,
                    latency_ns: vec![],
                },
                EntrySourceStats {
                    id: SourceId::RawUdp,
                    name: "soon".to_string(),
                    slots_seen: 1,
                    latency_ns: vec![1_000_000],
                },
            ],
        },
        grpc_overhead: vec![GrpcOverheadStats {
            id: SourceId::RawUdp,
            name: "account".to_string(),
            samples: 1,
            latency_ns: vec![42],
        }],
        block_stats: BlockStats { total_slots: 0, sources: vec![] },
        duration_ns: 60_000_000_000,
        min_slot: 350_000_000,
        max_slot: 350_000_001,
    }
}

#[test]
fn a_report_has_its_rows_in_order() {
    let report = build_report(&benchmark(), "60", Some("Va1idator"));
    assert_eq!(report.title, " SHRED BENCHMARK  ·  60s  ·  10 unique shreds  ·  3 sources ");
    assert_eq!(report.slots_line, "Slots: 350,000,000 → 350,000,001 (2 observed)");
    assert_eq!(report.leader_line.as_deref(), Some("Leader filter: Va1idator"));
    assert!(report.blocks.is_none());
    let order: Vec<&str> = report.latency.iter().map(|r| r.source.as_str()).collect();
    assert_eq!(order, ["fast", "even", "slow"]);
    assert_eq!(report.latency[2].p50, "500 ns");
    assert_eq!(report.latency[2].p99_9, "700 ns");
    assert_eq!(report.latency[0].p50, "  0 µs");
    let order: Vec<&str> = report.wins.iter().map(|r| r.source.as_str()).collect();
    assert_eq!(order, ["fast", "slow", "even"]);
    assert_eq!(report.wins[0].win_rate, "90.0%");
    assert_eq!(report.wins[0].total_received, "6");
    let order: Vec<&str> = report.coverage.iter().map(|r| r.source.as_str()).collect();
    assert_eq!(order, ["slow", "even", "fast"]);
    assert_eq!(report.coverage[0].coverage, " 80.0%");
    assert_eq!(report.coverage[2].missed, "4");
    assert_eq!(report.shred_types[2].source, "fast");
    assert_eq!(report.shred_types[2].data, "3 (50%)");
    let order: Vec<&str> = report.slots.iter().map(|r| r.source.as_str()).collect();
    assert_eq!(order, ["soon", "late"]);
    assert_eq!(report.slots[1].max, "  3.0 ms");
    assert_eq!(report.grpc[0].source, "account");
    assert_eq!(report.grpc[0].p50, " 42 ns");
}

#[test]
fn a_source_without_shreds_wins_none_of_them() {
    let mut stats = benchmark();
    stats.sources = vec![source("silent", 0, 0, vec![])];
    assert_eq!(build_report(&stats, "0", None).wins[0].win_rate, "0.0%");
    stats.total_unique_shreds = 0;
    assert_eq!(build_report(&stats, "0", None).wins[0].win_rate, "N/A");
}

#[test]
fn a_report_without_a_leader_or_sources() {
    let mut stats = benchmark();
    stats.sources = vec![];
    stats.grpc_overhead = vec![];
    let report = build_report(&stats, "0", None);
    assert!(report.leader_line.is_none());
    assert!(report.latency.is_empty() && report.grpc.is_empty());
}

#[test]
fn a_report_of_blocks() {
    let mut stats = benchmark();
    stats.block_stats = BlockStats {
        total_slots: 4,
        sources: vec![blocks("one", 1, 900), blocks("three", 3, 100), blocks("zero", 0, 1)],
    };
    let tables = build_report(&stats, "60", None).blocks.unwrap();
    let order: Vec<&str> = tables.availability.iter().map(|r| r.source.as_str()).collect();
    assert_eq!(order, ["three", "one"]);
    let order: Vec<&str> = tables.assembly.iter().map(|r| r.source.as_str()).collect();
    assert_eq!(order, ["one", "three"]);
    let order: Vec<&str> = tables.summary.iter().map(|r| r.source.as_str()).collect();
    assert_eq!(order, ["three", "one", "zero"]);
    assert_eq!(tables.summary[0].coverage, " 75.0%");
    assert_eq!(tables.summary[0].recovered_data, "1,000");
    assert_eq!(tables.summary[0].cpu_p50, "  2.0 µs");
    assert_eq!(tables.availability[0].count, "3");
}

#[test]
fn single_rows() {
    let row = grpc_overhead_row(&benchmark().grpc_overhead[0]);
    assert_eq!((row.source.as_str(), row.count.as_str()), ("account", "1"));
    assert_eq!(row.max, " 42 ns");
    let row = block_latency_row(&blocks("b", 12, 5), vec![1_500, 500]);
    assert_eq!((row.source.as_str(), row.count.as_str()), ("b", "12"));
    assert_eq!(row.p50, "500 ns");
    assert_eq!(row.p90, "  1.5 µs");
}
