//! The report of a run: what its header says, and its tables.

use vstd::prelude::*;

use crate::stats::BenchmarkStats;
use crate::table::{
    self, BlockSummaryRow, CoverageRow, LatencyRow, QuantileRow, ShredTypeRow, WinRow,
};
use crate::text;

verus! {

/// The tables of the blocks of a run.
#[derive(Debug)]
pub struct BlockTables {
    pub availability: Vec<QuantileRow>,
    pub assembly: Vec<QuantileRow>,
    pub summary: Vec<BlockSummaryRow>,
}

/// The report of a run.
#[derive(Debug)]
pub struct Report {
    pub title: String,
    pub slots_line: String,
    pub leader_line: Option<String>,
    /// Nothing where no source had a whole block.
    pub blocks: Option<BlockTables>,
    pub latency: Vec<LatencyRow>,
    pub wins: Vec<WinRow>,
    pub coverage: Vec<CoverageRow>,
    pub shred_types: Vec<ShredTypeRow>,
    pub slots: Vec<QuantileRow>,
    pub grpc: Vec<QuantileRow>,
}

/// The title of a report; `seconds` is how long the run was.
pub open spec fn title_text(seconds: Seq<char>, unique: nat, sources: nat) -> Seq<char> {
    " SHRED BENCHMARK  ·  "@ + seconds + "s  ·  "@ + text::grouped(unique) + " unique shreds  ·  "@
        + text::decimal(sources) + " sources "@
}

/// The line on the slots of a run.
pub open spec fn slots_text(min_slot: nat, max_slot: nat, observed: nat) -> Seq<char> {
    "Slots: "@ + text::grouped(min_slot) + " → "@ + text::grouped(max_slot) + " ("@
        + text::grouped(observed) + " observed)"@
}

/// The title of a report.
pub fn title(seconds: &str, unique: u64, sources: usize) -> (line: String)
    ensures
        line@ == title_text(seconds@, unique as nat, sources as nat),
{
    let mut line: String = String::from_str(" SHRED BENCHMARK  ·  ");
    line.append(seconds);
    line.append("s  ·  ");
    line.append(table::num_fmt(unique).as_str());
    line.append(" unique shreds  ·  ");
    text::push_decimal(&mut line, sources as u128);
    line.append(" sources ");
    line
}

/// The line on the slots of a run.
pub fn slots_line(min_slot: u64, max_slot: u64, observed: u64) -> (line: String)
    ensures
        line@ == slots_text(min_slot as nat, max_slot as nat, observed as nat),
{
    let mut line: String = String::from_str("Slots: ");
    line.append(table::num_fmt(min_slot).as_str());
    line.append(" → ");
    line.append(table::num_fmt(max_slot).as_str());
    line.append(" (");
    line.append(table::num_fmt(observed).as_str());
    line.append(" observed)");
    line
}

/// The tables of a report.
pub open spec fn shows(report: Report, stats: BenchmarkStats) -> bool {
    let total = stats.total_unique_shreds;
    &&& match report.blocks {
        Some(blocks) => {
            let sources = stats.block_stats.sources@;
            &&& stats.block_stats.total_slots > 0
            &&& table::is_quantile_table(
                blocks.availability@,
                table::availability_samples(sources),
            )
            &&& table::is_quantile_table(blocks.assembly@, table::assembly_samples(sources))
            &&& table::is_block_summary_table(
                blocks.summary@,
                sources,
                stats.block_stats.total_slots,
            )
        },
        None => stats.block_stats.total_slots == 0,
    }
    &&& table::is_latency_table(report.latency@, stats.sources@)
    &&& table::is_win_table(report.wins@, stats.sources@, total)
    &&& table::is_coverage_table(report.coverage@, stats.sources@, total)
    &&& table::is_shred_type_table(report.shred_types@, stats.sources@)
    &&& table::is_quantile_table(
        report.slots@,
        table::slot_samples(stats.slot_stats.entry_sources@),
    )
    &&& table::is_quantile_table(report.grpc@, table::grpc_samples(stats.grpc_overhead@))
}

/// Whether `report` is that of a run that took `seconds`.
pub open spec fn reports(
    report: Report,
    stats: BenchmarkStats,
    seconds: Seq<char>,
    leader: Option<Seq<char>>,
) -> bool {
    &&& report.title@ == title_text(
        seconds,
        stats.total_unique_shreds as nat,
        stats.sources@.len(),
    )
    &&& report.slots_line@ == slots_text(
        stats.min_slot as nat,
        stats.max_slot as nat,
        stats.slot_stats.total_slots as nat,
    )
    &&& match leader {
        Some(pubkey) => report.leader_line matches Some(line) && line@ == "Leader filter: "@
            + pubkey,
        None => report.leader_line is None,
    }
    &&& shows(report, stats)
}

/// The report of a run that took `seconds`; `leader` is whose slots it was limited to.
pub fn build_report(stats: &BenchmarkStats, seconds: &str, leader: Option<&str>) -> (report: Report)
    ensures
        report.title@ == title_text(
            seconds@,
            stats.total_unique_shreds as nat,
            stats.sources@.len(),
        ),
        report.slots_line@ == slots_text(
            stats.min_slot as nat,
            stats.max_slot as nat,
            stats.slot_stats.total_slots as nat,
        ),
        match leader {
            Some(pubkey) => report.leader_line matches Some(line) && line@ == "Leader filter: "@
                + pubkey@,
            None => report.leader_line is None,
        },
        shows(report, *stats),
        reports(
            report,
            *stats,
            seconds@,
            match leader {
                Some(pubkey) => Some(pubkey@),
                None => None,
            },
        ),
{
    let total: u64 = stats.total_unique_shreds;
    let blocks: Option<BlockTables> = if stats.block_stats.total_slots == 0 {
        None
    } else {
        Some(
            BlockTables {
                availability: table::availability_table(&stats.block_stats.sources),
                assembly: table::assembly_table(&stats.block_stats.sources),
                summary: table::block_summary_table(
                    &stats.block_stats.sources,
                    stats.block_stats.total_slots,
                ),
            },
        )
    };
    let leader_line: Option<String> = match leader {
        Some(pubkey) => Some(String::from_str("Leader filter: ").concat(pubkey)),
        None => None,
    };
    Report {
        title: title(seconds, total, stats.sources.len()),
        slots_line: slots_line(stats.min_slot, stats.max_slot, stats.slot_stats.total_slots),
        leader_line,
        blocks,
        latency: table::latency_table(&stats.sources),
        wins: table::win_table(&stats.sources, total),
        coverage: table::coverage_table(&stats.sources, total),
        shred_types: table::shred_type_table(&stats.sources),
        slots: table::slot_table(&stats.slot_stats.entry_sources),
        grpc: table::grpc_table(&stats.grpc_overhead),
    }
}

} // verus!
