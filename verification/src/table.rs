//! The rows of the tables that a run is reported in.

use vstd::prelude::*;

use crate::binary64::{self, Binary64};
use crate::blocks::BlockSourceStats;
use crate::order;
use crate::percentiles::{self, Percentiles};
use crate::stats::{self, compute_percentiles, EntrySourceStats, GrpcOverheadStats, SourceStats};
use crate::text;

pub use crate::text::num_fmt;

verus! {

/// A fraction, rounded to 53 bits.
pub open spec fn quotient(part: nat, whole: nat) -> binary64::BinaryView {
    binary64::BinaryView::of(part).over(binary64::BinaryView::of(whole))
}

/// A fraction in percent, each operation rounded to 53 bits.
pub open spec fn percent(part: nat, whole: nat) -> binary64::BinaryView {
    quotient(part, whole).times(binary64::BinaryView::of(100))
}

/// Nanoseconds, in a unit that suits them.
pub open spec fn ns_text(ns: u64) -> Seq<char> {
    if ns == 0 {
        "  0 µs"@
    } else if ns < 1_000 {
        text::padded(text::decimal(ns as nat), 3) + " ns"@
    } else if ns < 1_000_000 {
        text::padded(text::one_place(quotient(ns as nat, 1_000)), 5) + " µs"@
    } else if ns < 1_000_000_000 {
        text::padded(text::one_place(quotient(ns as nat, 1_000_000)), 5) + " ms"@
    } else {
        text::padded(text::two_places(quotient(ns as nat, 1_000_000_000)), 5) + "  s"@
    }
}

/// How much of a whole there is, in percent.
pub open spec fn coverage_text(received: u64, total: u64) -> Seq<char> {
    if total == 0 {
        "  N/A"@
    } else {
        text::padded(text::one_place(percent(received as nat, total as nat)), 5) + "%"@
    }
}

/// How many of all shreds came first from a source, in percent.
pub open spec fn win_rate_text(wins: u64, total: u64) -> Seq<char> {
    if total == 0 {
        "N/A"@
    } else {
        text::one_place(percent(wins as nat, total as nat)) + "%"@
    }
}

/// A number, and how much of a whole it is, in whole percent.
pub open spec fn share_text(part: u64, whole: nat) -> Seq<char> {
    text::grouped(part as nat) + " ("@ + text::decimal(
        if whole == 0 {
            0
        } else {
            (part * 100 / whole as int) as nat
        },
    ) + "%)"@
}

/// A fraction, rounded to 53 bits.
fn divide(part: u64, whole: u64) -> (x: Binary64)
    requires
        whole > 0,
    ensures
        x@ == quotient(part as nat, whole as nat),
        x@.wf(),
        -200 <= x.exponent <= 13,
{
    Binary64::of(part).over(Binary64::of(whole))
}

/// A fraction in percent with one decimal place.
fn percentage(part: u64, whole: u64) -> (rate: String)
    requires
        whole > 0,
    ensures
        rate@ == text::one_place(percent(part as nat, whole as nat)),
{
    proof {
        binary64::lemma_hundred();
    }
    text::with_one_place(divide(part, whole).times(Binary64::of(100)))
}

/// Nanoseconds, in a unit that suits them.
pub fn fmt_ns(ns: u64) -> (shown: String)
    ensures
        shown@ == ns_text(ns),
{
    if ns == 0 {
        return String::from_str("  0 µs");
    }
    if ns < 1_000 {
        text::pad(&text::to_decimal(ns), 3).concat(" ns")
    } else if ns < 1_000_000 {
        text::pad(&text::with_one_place(divide(ns, 1_000)), 5).concat(" µs")
    } else if ns < 1_000_000_000 {
        text::pad(&text::with_one_place(divide(ns, 1_000_000)), 5).concat(" ms")
    } else {
        text::pad(&text::with_two_places(divide(ns, 1_000_000_000)), 5).concat("  s")
    }
}

/// How much of a whole there is, in percent.
pub fn coverage(received: u64, total: u64) -> (shown: String)
    ensures
        shown@ == coverage_text(received, total),
{
    if total == 0 {
        return String::from_str("  N/A");
    }
    text::pad(&percentage(received, total), 5).concat("%")
}

/// How many of all shreds came first from a source, in percent.
pub fn win_rate(wins: u64, total: u64) -> (shown: String)
    ensures
        shown@ == win_rate_text(wins, total),
{
    if total == 0 {
        return String::from_str("N/A");
    }
    percentage(wins, total).concat("%")
}

/// A number, and how much of a whole it is, in whole percent.
pub fn share(part: u64, whole: u128) -> (shown: String)
    ensures
        shown@ == share_text(part, whole as nat),
{
    let mut shown: String = num_fmt(part).concat(" (");
    if whole == 0 {
        text::push_decimal(&mut shown, 0);
    } else {
        text::push_decimal(&mut shown, part as u128 * 100 / whole);
    }
    shown.concat("%)")
}

/// What a row of quantiles is made from.
#[verifier::ext_equal]
pub struct SampleView {
    pub name: Seq<char>,
    pub count: u64,
    pub latency_ns: Seq<u64>,
}

/// A name, a number and latencies.
#[derive(Debug)]
pub struct Sample {
    pub name: String,
    pub count: u64,
    pub latency_ns: Vec<u64>,
}

impl View for Sample {
    type V = SampleView;

    open spec fn view(&self) -> SampleView {
        SampleView { name: self.name@, count: self.count, latency_ns: self.latency_ns@ }
    }
}

/// A copy of numbers.
fn copy_numbers(numbers: &Vec<u64>) -> (copy: Vec<u64>)
    ensures
        copy@ == numbers@,
{
    let mut copy: Vec<u64> = Vec::new();
    let mut n: usize = 0;
    while n < numbers.len()
        invariant
            n <= numbers@.len(),
            copy@ == numbers@.take(n as int),
        decreases numbers@.len() - n,
    {
        copy.push(numbers[n]);
        n = n + 1;
    }
    copy
}

/// A row of quantiles.
#[derive(Debug)]
pub struct QuantileRow {
    pub source: String,
    pub count: String,
    pub p50: String,
    pub p90: String,
    pub p95: String,
    pub p99: String,
    pub max: String,
}

/// `row` shows a sample.
pub open spec fn is_quantile_row(row: QuantileRow, sample: SampleView) -> bool {
    let p = percentiles::percentiles(sample.latency_ns);
    &&& row.source@ == sample.name
    &&& row.count@ == text::grouped(sample.count as nat)
    &&& row.p50@ == ns_text(p.p50)
    &&& row.p90@ == ns_text(p.p90)
    &&& row.p95@ == ns_text(p.p95)
    &&& row.p99@ == ns_text(p.p99)
    &&& row.max@ == ns_text(p.max)
}

fn quantile_row(name: &String, count: u64, latency_ns: Vec<u64>) -> (row: QuantileRow)
    ensures
        is_quantile_row(
            row,
            (SampleView { name: name@, count, latency_ns: latency_ns@ }),
        ),
{
    let p: Percentiles = compute_percentiles(latency_ns);
    QuantileRow {
        source: name.clone(),
        count: num_fmt(count),
        p50: fmt_ns(p.p50),
        p90: fmt_ns(p.p90),
        p95: fmt_ns(p.p95),
        p99: fmt_ns(p.p99),
        max: fmt_ns(p.max),
    }
}

/// What is shown of the account updates of a source.
pub open spec fn grpc_sample(stats: GrpcOverheadStats) -> SampleView {
    SampleView { name: stats.name@, count: stats.samples, latency_ns: stats.latency_ns@ }
}

/// The row of a source's account updates.
pub fn grpc_overhead_row(s: &GrpcOverheadStats) -> (row: QuantileRow)
    ensures
        is_quantile_row(row, grpc_sample(*s)),
{
    quantile_row(&s.name, s.samples, copy_numbers(&s.latency_ns))
}

/// The row of a source's blocks.
pub fn block_latency_row(s: &BlockSourceStats, latency_ns: Vec<u64>) -> (row: QuantileRow)
    ensures
        is_quantile_row(
            row,
            (SampleView {
                name: s.name@,
                count: s.completed_slots,
                latency_ns: latency_ns@,
            }),
        ),
{
    quantile_row(&s.name, s.completed_slots, latency_ns)
}

/// Whether a sample is worth a row.
pub open spec fn counts() -> spec_fn(SampleView) -> bool {
    |sample: SampleView| sample.count > 0
}

/// The medians of samples.
pub open spec fn medians(samples: Seq<SampleView>) -> Seq<u64> {
    samples.map_values(
        |sample: SampleView| percentiles::percentiles(sample.latency_ns).p50,
    )
}

/// `rows` shows the samples that count, from the lowest median up.
pub open spec fn is_quantile_table(rows: Seq<QuantileRow>, samples: Seq<SampleView>) -> bool {
    let shown = samples.filter(counts());
    exists|order: Seq<usize>|
        {
            &&& #[trigger] order::is_order(medians(shown), order)
            &&& rows.len() == order.len()
            &&& forall|i: int|
                0 <= i < rows.len() ==> is_quantile_row(
                    #[trigger] rows[i],
                    shown[order[i] as int],
                )
        }
}

/// The rows of the samples that count, from the lowest median up.
pub fn quantile_table(samples: &Vec<Sample>) -> (rows: Vec<QuantileRow>)
    ensures
        is_quantile_table(rows@, samples@.map_values(|sample: Sample| sample@)),
{
    let ghost views = samples@.map_values(|sample: Sample| sample@);
    let ghost shown = views.filter(counts());
    let mut places: Vec<usize> = Vec::new();
    let mut halves: Vec<u64> = Vec::new();
    let mut n: usize = 0;
    proof {
        reveal(Seq::filter);
    }
    while n < samples.len()
        invariant
            n <= samples@.len(),
            views == samples@.map_values(|sample: Sample| sample@),
            places@.len() == views.take(n as int).filter(counts()).len(),
            halves@ == medians(views.take(n as int).filter(counts())),
            forall|i: int|
                0 <= i < places@.len() ==> (#[trigger] places@[i]) < n && views[places@[i] as int]
                    == views.take(n as int).filter(counts())[i],
        decreases samples@.len() - n,
    {
        proof {
            stats::lemma_filter_next(views, n as int, counts());
            assert(views[n as int] == samples@[n as int]@);
        }
        let ghost before = views.take(n as int).filter(counts());
        if samples[n].count > 0 {
            places.push(n);
            halves.push(compute_percentiles(copy_numbers(&samples[n].latency_ns)).p50);
            assert(halves@ =~= medians(before.push(views[n as int])));
        }
        n = n + 1;
    }
    assert(views.take(n as int) =~= views);
    let order: Vec<usize> = order::order_by(&halves);
    let mut rows: Vec<QuantileRow> = Vec::new();
    let mut k: usize = 0;
    while k < order.len()
        invariant
            k <= order@.len(),
            rows@.len() == k,
            views == samples@.map_values(|sample: Sample| sample@),
            places@.len() == shown.len(),
            order::is_order(medians(shown), order@),
            forall|i: int|
                0 <= i < places@.len() ==> (#[trigger] places@[i]) < samples@.len()
                    && views[places@[i] as int] == shown[i],
            forall|i: int|
                0 <= i < k ==> is_quantile_row(#[trigger] rows@[i], shown[order@[i] as int]),
        decreases order@.len() - k,
    {
        assert(order@[k as int] < shown.len());
        let sample: &Sample = &samples[places[order[k]]];
        assert(sample@ == shown[order@[k as int] as int]);
        rows.push(quantile_row(&sample.name, sample.count, copy_numbers(&sample.latency_ns)));
        k = k + 1;
    }
    rows
}

/// What is shown of the slots that a source gave signs of.
pub open spec fn slot_sample(stats: EntrySourceStats) -> SampleView {
    SampleView { name: stats.name@, count: stats.slots_seen, latency_ns: stats.latency_ns@ }
}

/// What is shown of the slots that sources gave signs of.
pub open spec fn slot_samples(sources: Seq<EntrySourceStats>) -> Seq<SampleView> {
    sources.map_values(|stats: EntrySourceStats| slot_sample(stats))
}

/// The table of slots: the sources that gave signs of any, the fastest one first.
pub fn slot_table(sources: &Vec<EntrySourceStats>) -> (rows: Vec<QuantileRow>)
    ensures
        is_quantile_table(rows@, slot_samples(sources@)),
{
    let mut samples: Vec<Sample> = Vec::new();
    let mut n: usize = 0;
    while n < sources.len()
        invariant
            n <= sources@.len(),
            samples@.len() == n,
            forall|i: int| 0 <= i < n ==> (#[trigger] samples@[i])@ == slot_sample(sources@[i]),
        decreases sources@.len() - n,
    {
        let stats: &EntrySourceStats = &sources[n];
        samples.push(
            Sample {
                name: stats.name.clone(),
                count: stats.slots_seen,
                latency_ns: copy_numbers(&stats.latency_ns),
            },
        );
        n = n + 1;
    }
    assert(samples@.map_values(|sample: Sample| sample@) =~= slot_samples(sources@));
    quantile_table(&samples)
}

/// What is shown of the account updates of sources.
pub open spec fn grpc_samples(sources: Seq<GrpcOverheadStats>) -> Seq<SampleView> {
    sources.map_values(|stats: GrpcOverheadStats| grpc_sample(stats))
}

/// The table of account updates: the sources that gave any, the fastest one first.
pub fn grpc_table(sources: &Vec<GrpcOverheadStats>) -> (rows: Vec<QuantileRow>)
    ensures
        is_quantile_table(rows@, grpc_samples(sources@)),
{
    let mut samples: Vec<Sample> = Vec::new();
    let mut n: usize = 0;
    while n < sources.len()
        invariant
            n <= sources@.len(),
            samples@.len() == n,
            forall|i: int| 0 <= i < n ==> (#[trigger] samples@[i])@ == grpc_sample(sources@[i]),
        decreases sources@.len() - n,
    {
        let stats: &GrpcOverheadStats = &sources[n];
        samples.push(
            Sample {
                name: stats.name.clone(),
                count: stats.samples,
                latency_ns: copy_numbers(&stats.latency_ns),
            },
        );
        n = n + 1;
    }
    assert(samples@.map_values(|sample: Sample| sample@) =~= grpc_samples(sources@));
    quantile_table(&samples)
}

/// What is shown of how long after the fastest source a source had blocks.
pub open spec fn availability_sample(stats: BlockSourceStats) -> SampleView {
    SampleView { name: stats.name@, count: stats.completed_slots, latency_ns: stats.relative_latency_ns@ }
}

/// What is shown of how long after the fastest source sources had blocks.
pub open spec fn availability_samples(sources: Seq<BlockSourceStats>) -> Seq<SampleView> {
    sources.map_values(|stats: BlockSourceStats| availability_sample(stats))
}

/// The table of how long after the fastest source blocks were there: the sources that had any, the
/// fastest one first.
pub fn availability_table(sources: &Vec<BlockSourceStats>) -> (rows: Vec<QuantileRow>)
    ensures
        is_quantile_table(rows@, availability_samples(sources@)),
{
    let mut samples: Vec<Sample> = Vec::new();
    let mut n: usize = 0;
    while n < sources.len()
        invariant
            n <= sources@.len(),
            samples@.len() == n,
            forall|i: int| 0 <= i < n ==> (#[trigger] samples@[i])@ == availability_sample(sources@[i]),
        decreases sources@.len() - n,
    {
        let stats: &BlockSourceStats = &sources[n];
        samples.push(
            Sample {
                name: stats.name.clone(),
                count: stats.completed_slots,
                latency_ns: copy_numbers(&stats.relative_latency_ns),
            },
        );
        n = n + 1;
    }
    assert(samples@.map_values(|sample: Sample| sample@) =~= availability_samples(sources@));
    quantile_table(&samples)
}

/// What is shown of how long after its first shred a source had blocks.
pub open spec fn assembly_sample(stats: BlockSourceStats) -> SampleView {
    SampleView { name: stats.name@, count: stats.completed_slots, latency_ns: stats.assembly_latency_ns@ }
}

/// What is shown of how long after their first shred sources had blocks.
pub open spec fn assembly_samples(sources: Seq<BlockSourceStats>) -> Seq<SampleView> {
    sources.map_values(|stats: BlockSourceStats| assembly_sample(stats))
}

/// The table of how long after their first shred blocks were there: the sources that had any, the
/// fastest one first.
pub fn assembly_table(sources: &Vec<BlockSourceStats>) -> (rows: Vec<QuantileRow>)
    ensures
        is_quantile_table(rows@, assembly_samples(sources@)),
{
    let mut samples: Vec<Sample> = Vec::new();
    let mut n: usize = 0;
    while n < sources.len()
        invariant
            n <= sources@.len(),
            samples@.len() == n,
            forall|i: int| 0 <= i < n ==> (#[trigger] samples@[i])@ == assembly_sample(sources@[i]),
        decreases sources@.len() - n,
    {
        let stats: &BlockSourceStats = &sources[n];
        samples.push(
            Sample {
                name: stats.name.clone(),
                count: stats.completed_slots,
                latency_ns: copy_numbers(&stats.assembly_latency_ns),
            },
        );
        n = n + 1;
    }
    assert(samples@.map_values(|sample: Sample| sample@) =~= assembly_samples(sources@));
    quantile_table(&samples)
}

/// How far a source was behind the first arrivals.
#[derive(Debug)]
pub struct LatencyRow {
    pub source: String,
    pub shreds: String,
    pub p50: String,
    pub p90: String,
    pub p95: String,
    pub p99: String,
    pub p99_9: String,
    pub max: String,
}

/// `row` shows a source.
pub open spec fn is_latency_row(row: LatencyRow, stats: SourceStats) -> bool {
    let p = percentiles::percentiles(stats.latency_ns@);
    &&& row.source@ == stats.name@
    &&& row.shreds@ == text::grouped(stats.received as nat)
    &&& row.p50@ == ns_text(p.p50)
    &&& row.p90@ == ns_text(p.p90)
    &&& row.p95@ == ns_text(p.p95)
    &&& row.p99@ == ns_text(p.p99)
    &&& row.p99_9@ == ns_text(p.p99_9)
    &&& row.max@ == ns_text(p.max)
}

/// The row of how far a source was behind the first arrivals.
pub fn latency_row(stats: &SourceStats) -> (row: LatencyRow)
    ensures
        is_latency_row(row, *stats),
{
    let p: Percentiles = compute_percentiles(copy_numbers(&stats.latency_ns));
    LatencyRow {
        source: stats.name.clone(),
        shreds: num_fmt(stats.received),
        p50: fmt_ns(p.p50),
        p90: fmt_ns(p.p90),
        p95: fmt_ns(p.p95),
        p99: fmt_ns(p.p99),
        p99_9: fmt_ns(p.p99_9),
        max: fmt_ns(p.max),
    }
}

/// What the rows are ordered by.
pub open spec fn latency_keys(sources: Seq<SourceStats>) -> Seq<u64> {
    sources.map_values(|stats: SourceStats| percentiles::percentiles(stats.latency_ns@).p50)
}

/// `rows` shows all sources, from the lowest median up.
pub open spec fn is_latency_table(rows: Seq<LatencyRow>, sources: Seq<SourceStats>) -> bool {
    exists|order: Seq<usize>|
        {
            &&& #[trigger] order::is_order(latency_keys(sources), order)
            &&& rows.len() == order.len()
            &&& forall|i: int|
                0 <= i < rows.len() ==> is_latency_row(
                    #[trigger] rows[i],
                    sources[order[i] as int],
                )
        }
}

/// The rows of all sources, from the lowest median up.
pub fn latency_table(sources: &Vec<SourceStats>) -> (rows: Vec<LatencyRow>)
    ensures
        is_latency_table(rows@, sources@),
{
    let mut keys: Vec<u64> = Vec::new();
    let mut n: usize = 0;
    while n < sources.len()
        invariant
            n <= sources@.len(),
            keys@ == latency_keys(sources@).take(n as int),
        decreases sources@.len() - n,
    {
        keys.push(compute_percentiles(copy_numbers(&sources[n].latency_ns)).p50);
        n = n + 1;
    }
    assert(keys@ =~= latency_keys(sources@));
    let order: Vec<usize> = order::order_by(&keys);
    let mut rows: Vec<LatencyRow> = Vec::new();
    let mut k: usize = 0;
    while k < order.len()
        invariant
            k <= order@.len(),
            rows@.len() == k,
            order::is_order(latency_keys(sources@), order@),
            forall|i: int|
                0 <= i < k ==> is_latency_row(#[trigger] rows@[i], sources@[order@[i] as int]),
        decreases order@.len() - k,
    {
        assert(order@[k as int] < sources@.len());
        rows.push(latency_row(&sources[order[k]]));
        k = k + 1;
    }
    rows
}

/// How many shreds came first from a source.
#[derive(Debug)]
pub struct WinRow {
    pub source: String,
    pub wins: String,
    pub total_received: String,
    pub win_rate: String,
}

/// `row` shows a source.
pub open spec fn is_win_row(row: WinRow, stats: SourceStats, total: u64) -> bool {
    &&& row.source@ == stats.name@
    &&& row.wins@ == text::grouped(stats.wins as nat)
    &&& row.total_received@ == text::grouped(stats.received as nat)
    &&& row.win_rate@ == win_rate_text(stats.wins, total)
}

/// The row of how many shreds came first from a source.
pub fn win_row(stats: &SourceStats, total: u64) -> (row: WinRow)
    ensures
        is_win_row(row, *stats, total),
{
    WinRow {
        source: stats.name.clone(),
        wins: num_fmt(stats.wins),
        total_received: num_fmt(stats.received),
        win_rate: win_rate(stats.wins, total),
    }
}

/// What the rows are ordered by.
pub open spec fn win_keys(sources: Seq<SourceStats>) -> Seq<u64> {
    sources.map_values(|stats: SourceStats| stats.wins)
}

/// `rows` shows all sources, from the most wins down.
pub open spec fn is_win_table(rows: Seq<WinRow>, sources: Seq<SourceStats>, total: u64) -> bool {
    exists|order: Seq<usize>|
        {
            &&& #[trigger] order::is_order(order::flipped(win_keys(sources)), order)
            &&& rows.len() == order.len()
            &&& forall|i: int|
                0 <= i < rows.len() ==> is_win_row(
                    #[trigger] rows[i],
                    sources[order[i] as int], total,
                )
        }
}

/// The rows of all sources, from the most wins down.
pub fn win_table(sources: &Vec<SourceStats>, total: u64) -> (rows: Vec<WinRow>)
    ensures
        is_win_table(rows@, sources@, total),
{
    let mut keys: Vec<u64> = Vec::new();
    let mut n: usize = 0;
    while n < sources.len()
        invariant
            n <= sources@.len(),
            keys@ == win_keys(sources@).take(n as int),
        decreases sources@.len() - n,
    {
        keys.push(sources[n].wins);
        n = n + 1;
    }
    assert(keys@ =~= win_keys(sources@));
    let order: Vec<usize> = order::order_down_by(&keys);
    let mut rows: Vec<WinRow> = Vec::new();
    let mut k: usize = 0;
    while k < order.len()
        invariant
            k <= order@.len(),
            rows@.len() == k,
            order::is_order(order::flipped(win_keys(sources@)), order@),
            forall|i: int|
                0 <= i < k ==> is_win_row(#[trigger] rows@[i], sources@[order@[i] as int], total),
        decreases order@.len() - k,
    {
        assert(order@[k as int] < sources@.len());
        rows.push(win_row(&sources[order[k]], total));
        k = k + 1;
    }
    rows
}

/// How much of all shreds a source delivered.
#[derive(Debug)]
pub struct CoverageRow {
    pub source: String,
    pub received: String,
    pub coverage: String,
    pub dupes: String,
    pub missed: String,
}

/// `row` shows a source.
pub open spec fn is_coverage_row(row: CoverageRow, stats: SourceStats, total: u64) -> bool {
    &&& row.source@ == stats.name@
    &&& row.received@ == text::grouped(stats.received as nat)
    &&& row.coverage@ == coverage_text(stats.received, total)
    &&& row.dupes@ == text::grouped(stats.dupes as nat)
    &&& row.missed@ == text::grouped(stats.missed as nat)
}

/// The row of how much of all shreds a source delivered.
pub fn coverage_row(stats: &SourceStats, total: u64) -> (row: CoverageRow)
    ensures
        is_coverage_row(row, *stats, total),
{
    CoverageRow {
        source: stats.name.clone(),
        received: num_fmt(stats.received),
        coverage: coverage(stats.received, total),
        dupes: num_fmt(stats.dupes),
        missed: num_fmt(stats.missed),
    }
}

/// What the rows are ordered by.
pub open spec fn received_keys(sources: Seq<SourceStats>) -> Seq<u64> {
    sources.map_values(|stats: SourceStats| stats.received)
}

/// `rows` shows all sources, from the most shreds down.
pub open spec fn is_coverage_table(rows: Seq<CoverageRow>, sources: Seq<SourceStats>, total: u64) -> bool {
    exists|order: Seq<usize>|
        {
            &&& #[trigger] order::is_order(order::flipped(received_keys(sources)), order)
            &&& rows.len() == order.len()
            &&& forall|i: int|
                0 <= i < rows.len() ==> is_coverage_row(
                    #[trigger] rows[i],
                    sources[order[i] as int], total,
                )
        }
}

/// The rows of all sources, from the most shreds down.
pub fn coverage_table(sources: &Vec<SourceStats>, total: u64) -> (rows: Vec<CoverageRow>)
    ensures
        is_coverage_table(rows@, sources@, total),
{
    let mut keys: Vec<u64> = Vec::new();
    let mut n: usize = 0;
    while n < sources.len()
        invariant
            n <= sources@.len(),
            keys@ == received_keys(sources@).take(n as int),
        decreases sources@.len() - n,
    {
        keys.push(sources[n].received);
        n = n + 1;
    }
    assert(keys@ =~= received_keys(sources@));
    let order: Vec<usize> = order::order_down_by(&keys);
    let mut rows: Vec<CoverageRow> = Vec::new();
    let mut k: usize = 0;
    while k < order.len()
        invariant
            k <= order@.len(),
            rows@.len() == k,
            order::is_order(order::flipped(received_keys(sources@)), order@),
            forall|i: int|
                0 <= i < k ==> is_coverage_row(#[trigger] rows@[i], sources@[order@[i] as int], total),
        decreases order@.len() - k,
    {
        assert(order@[k as int] < sources@.len());
        rows.push(coverage_row(&sources[order[k]], total));
        k = k + 1;
    }
    rows
}

/// How many data and code shreds a source delivered.
#[derive(Debug)]
pub struct ShredTypeRow {
    pub source: String,
    pub data: String,
    pub code: String,
}

/// `row` shows a source.
pub open spec fn is_shred_type_row(row: ShredTypeRow, stats: SourceStats) -> bool {
    let all = (stats.data_shreds + stats.code_shreds) as nat;
    &&& row.source@ == stats.name@
    &&& row.data@ == share_text(stats.data_shreds, all)
    &&& row.code@ == share_text(stats.code_shreds, all)
}

/// The row of how many data and code shreds a source delivered.
pub fn shred_type_row(stats: &SourceStats) -> (row: ShredTypeRow)
    ensures
        is_shred_type_row(row, *stats),
{
    let all: u128 = stats.data_shreds as u128 + stats.code_shreds as u128;
    ShredTypeRow {
        source: stats.name.clone(),
        data: share(stats.data_shreds, all),
        code: share(stats.code_shreds, all),
    }
}

/// `rows` shows all sources, from the most shreds down.
pub open spec fn is_shred_type_table(rows: Seq<ShredTypeRow>, sources: Seq<SourceStats>) -> bool {
    exists|order: Seq<usize>|
        {
            &&& #[trigger] order::is_order(order::flipped(received_keys(sources)), order)
            &&& rows.len() == order.len()
            &&& forall|i: int|
                0 <= i < rows.len() ==> is_shred_type_row(
                    #[trigger] rows[i],
                    sources[order[i] as int],
                )
        }
}

/// The rows of all sources, from the most shreds down.
pub fn shred_type_table(sources: &Vec<SourceStats>) -> (rows: Vec<ShredTypeRow>)
    ensures
        is_shred_type_table(rows@, sources@),
{
    let mut keys: Vec<u64> = Vec::new();
    let mut n: usize = 0;
    while n < sources.len()
        invariant
            n <= sources@.len(),
            keys@ == received_keys(sources@).take(n as int),
        decreases sources@.len() - n,
    {
        keys.push(sources[n].received);
        n = n + 1;
    }
    assert(keys@ =~= received_keys(sources@));
    let order: Vec<usize> = order::order_down_by(&keys);
    let mut rows: Vec<ShredTypeRow> = Vec::new();
    let mut k: usize = 0;
    while k < order.len()
        invariant
            k <= order@.len(),
            rows@.len() == k,
            order::is_order(order::flipped(received_keys(sources@)), order@),
            forall|i: int|
                0 <= i < k ==> is_shred_type_row(#[trigger] rows@[i], sources@[order@[i] as int]),
        decreases order@.len() - k,
    {
        assert(order@[k as int] < sources@.len());
        rows.push(shred_type_row(&sources[order[k]]));
        k = k + 1;
    }
    rows
}

/// What the blocks of a source amount to.
#[derive(Debug)]
pub struct BlockSummaryRow {
    pub source: String,
    pub complete: String,
    pub coverage: String,
    pub wins: String,
    pub recovered_data: String,
    pub recovered_fec_sets: String,
    pub received_shreds: String,
    pub expected_data_shreds: String,
    pub entries: String,
    pub transactions: String,
    pub cpu_p50: String,
}

/// `row` shows a source.
pub open spec fn is_block_summary_row(row: BlockSummaryRow, stats: BlockSourceStats, total_slots: u64) -> bool {
    &&& row.source@ == stats.name@
    &&& row.complete@ == text::grouped(stats.completed_slots as nat)
    &&& row.coverage@ == coverage_text(stats.completed_slots, total_slots)
    &&& row.wins@ == text::grouped(stats.wins as nat)
    &&& row.recovered_data@ == text::grouped(stats.recovered_data_shreds as nat)
    &&& row.recovered_fec_sets@ == text::grouped(stats.fec_sets_recovered as nat)
    &&& row.received_shreds@ == text::grouped(stats.received_shreds as nat)
    &&& row.expected_data_shreds@ == text::grouped(stats.expected_data_shreds as nat)
    &&& row.entries@ == text::grouped(stats.entries as nat)
    &&& row.transactions@ == text::grouped(stats.transactions as nat)
    &&& row.cpu_p50@ == ns_text(percentiles::percentiles(stats.reconstruction_cpu_ns@).p50)
}

/// The row of what the blocks of a source amount to.
pub fn block_summary_row(stats: &BlockSourceStats, total_slots: u64) -> (row: BlockSummaryRow)
    ensures
        is_block_summary_row(row, *stats, total_slots),
{
    BlockSummaryRow {
        source: stats.name.clone(),
        complete: num_fmt(stats.completed_slots),
        coverage: coverage(stats.completed_slots, total_slots),
        wins: num_fmt(stats.wins),
        recovered_data: num_fmt(stats.recovered_data_shreds),
        recovered_fec_sets: num_fmt(stats.fec_sets_recovered),
        received_shreds: num_fmt(stats.received_shreds),
        expected_data_shreds: num_fmt(stats.expected_data_shreds),
        entries: num_fmt(stats.entries),
        transactions: num_fmt(stats.transactions),
        cpu_p50: fmt_ns(compute_percentiles(copy_numbers(&stats.reconstruction_cpu_ns)).p50),
    }
}

/// What the rows are ordered by.
pub open spec fn completed_keys(sources: Seq<BlockSourceStats>) -> Seq<u64> {
    sources.map_values(|stats: BlockSourceStats| stats.completed_slots)
}

/// `rows` shows all sources, from the most blocks down.
pub open spec fn is_block_summary_table(rows: Seq<BlockSummaryRow>, sources: Seq<BlockSourceStats>, total_slots: u64) -> bool {
    exists|order: Seq<usize>|
        {
            &&& #[trigger] order::is_order(order::flipped(completed_keys(sources)), order)
            &&& rows.len() == order.len()
            &&& forall|i: int|
                0 <= i < rows.len() ==> is_block_summary_row(
                    #[trigger] rows[i],
                    sources[order[i] as int], total_slots,
                )
        }
}

/// The rows of all sources, from the most blocks down.
pub fn block_summary_table(sources: &Vec<BlockSourceStats>, total_slots: u64) -> (rows: Vec<BlockSummaryRow>)
    ensures
        is_block_summary_table(rows@, sources@, total_slots),
{
    let mut keys: Vec<u64> = Vec::new();
    let mut n: usize = 0;
    while n < sources.len()
        invariant
            n <= sources@.len(),
            keys@ == completed_keys(sources@).take(n as int),
        decreases sources@.len() - n,
    {
        keys.push(sources[n].completed_slots);
        n = n + 1;
    }
    assert(keys@ =~= completed_keys(sources@));
    let order: Vec<usize> = order::order_down_by(&keys);
    let mut rows: Vec<BlockSummaryRow> = Vec::new();
    let mut k: usize = 0;
    while k < order.len()
        invariant
            k <= order@.len(),
            rows@.len() == k,
            order::is_order(order::flipped(completed_keys(sources@)), order@),
            forall|i: int|
                0 <= i < k ==> is_block_summary_row(#[trigger] rows@[i], sources@[order@[i] as int], total_slots),
        decreases order@.len() - k,
    {
        assert(order@[k as int] < sources@.len());
        rows.push(block_summary_row(&sources[order[k]], total_slots));
        k = k + 1;
    }
    rows
}

} // verus!
