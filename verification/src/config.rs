//! What a run is to do: its limits, its sources and its log.

use vstd::prelude::*;

use crate::registry::SourceId;
use crate::text;

verus! {

/// How many seconds without a shred end a run, where it is not said.
pub fn default_silence_timeout() -> (seconds: u64)
    ensures
        seconds == 30,
{
    30
}

/// A source that is listed is enabled, where it is not said.
pub fn default_true() -> (enabled: bool)
    ensures
        enabled,
{
    true
}

#[derive(Debug)]
pub struct Config {
    /// How many seconds to run; without effect where a slot is given to start or end with.
    pub duration_secs: u64,
    /// Only shreds of this slot and later ones are recorded.
    pub start_slot: Option<u64>,
    /// The run ends once a shred beyond this slot is seen.
    pub end_slot: Option<u64>,
    /// The run ends once no shred has come for this many seconds.
    pub silence_timeout_secs: u64,
    pub sources: SourcesConfig,
    pub output: OutputConfig,
}

#[derive(Debug)]
pub struct SourcesConfig {
    pub raw_udp: Vec<RawUdpConfig>,
    pub jito: Vec<JitoConfig>,
    pub doublezero: Vec<DoubleZeroConfig>,
    pub yellowstone: Vec<YellowstoneConfig>,
    pub pcap: Vec<PcapConfig>,
}

#[derive(Debug)]
pub struct PcapConfig {
    pub name: String,
    pub enabled: bool,
    /// The UDP port to capture.
    pub port: u16,
    /// The network interface to capture on; all of them where it is empty.
    pub interface: String,
    /// The size of the socket's receive buffer; the kernel's where it is zero.
    pub recv_buf_size: usize,
}

#[derive(Debug)]
pub struct RawUdpConfig {
    pub name: String,
    pub enabled: bool,
    pub bind_addr: String,
    pub recv_buf_size: usize,
}

#[derive(Debug)]
pub struct JitoConfig {
    pub name: String,
    pub enabled: bool,
    /// The block engine to get shreds from directly.
    pub block_engine_url: String,
    pub auth_keypair_path: String,
    pub desired_regions: Vec<String>,
    pub public_ip: String,
    pub udp_bind_addr: String,
    /// Where a proxy that is running sends shreds to.
    pub proxy_udp_addr: String,
    /// Where a proxy that is running offers entries.
    pub proxy_grpc_addr: String,
}

#[derive(Debug)]
pub struct DoubleZeroConfig {
    pub name: String,
    pub enabled: bool,
    pub multicast_group: String,
    pub port: u16,
    pub interface: String,
}

#[derive(Debug)]
pub struct YellowstoneConfig {
    pub name: String,
    pub enabled: bool,
    pub endpoint: String,
    pub x_token: String,
    /// An account whose updates are measured too.
    pub account_pubkey: String,
    pub account_name: String,
}

#[derive(Debug)]
pub struct OutputConfig {
    pub log_file: String,
}

/// The limits of a run on slots.
#[derive(Debug, Clone, Copy, PartialEq, Eq, Structural)]
pub struct SlotRange {
    /// Whether a slot is given to start or end with.
    pub limited: bool,
    /// Whether a slot is given to start with.
    pub start_given: bool,
    pub start: u64,
    pub end: u64,
}

/// The limits of a run on slots.
pub open spec fn slot_range_of(start: Option<u64>, end: Option<u64>) -> SlotRange {
    SlotRange {
        limited: start is Some || end is Some,
        start_given: start is Some,
        start: match start {
            Some(slot) => slot,
            None => 0,
        },
        end: match end {
            Some(slot) => slot,
            None => u64::MAX,
        },
    }
}

impl Config {
    pub fn slot_range(&self) -> (range: SlotRange)
        ensures
            range == slot_range_of(self.start_slot, self.end_slot),
    {
        SlotRange {
            limited: self.start_slot.is_some() || self.end_slot.is_some(),
            start_given: self.start_slot.is_some(),
            start: match self.start_slot {
                Some(slot) => slot,
                None => 0,
            },
            end: match self.end_slot {
                Some(slot) => slot,
                None => u64::MAX,
            },
        }
    }

    /// How many seconds the run lasts; nothing where it lasts until it is stopped.
    pub fn run_seconds(&self) -> (seconds: Option<u64>)
        ensures
            seconds == (if self.duration_secs > 0 && !slot_range_of(
                self.start_slot,
                self.end_slot,
            ).limited {
                Some(self.duration_secs)
            } else {
                None
            }),
            seconds == seconds_of(self.duration_secs, self.start_slot, self.end_slot),
    {
        if self.duration_secs > 0 && !self.slot_range().limited {
            Some(self.duration_secs)
        } else {
            None
        }
    }
}

/// A text, where there is one.
pub open spec fn text_of(text: Option<String>) -> Option<Seq<char>> {
    match text {
        Some(text) => Some(text@),
        None => None,
    }
}

/// Where the log goes.
pub open spec fn log_goes_to(
    no_log: bool,
    argument: Option<Seq<char>>,
    configured: Seq<char>,
) -> Option<Seq<char>> {
    if no_log {
        None
    } else if argument is Some {
        argument
    } else if configured.len() > 0 {
        Some(configured)
    } else {
        None
    }
}

/// How many seconds a run lasts that has these limits.
pub open spec fn seconds_of(
    duration_secs: u64,
    start: Option<u64>,
    end: Option<u64>,
) -> Option<u64> {
    if duration_secs > 0 && !slot_range_of(start, end).limited {
        Some(duration_secs)
    } else {
        None
    }
}

/// Where the log goes: what the command line says goes before what the configuration says.
pub fn log_path(no_log: bool, argument: Option<String>, configured: &String) -> (path: Option<String>)
    ensures
        match path {
            Some(path) => !no_log && path@ == (match argument {
                Some(argument) => argument@,
                None => configured@,
            }) && (argument is Some || configured@.len() > 0),
            None => no_log || (argument is None && configured@.len() == 0),
        },
        text_of(path) == log_goes_to(no_log, text_of(argument), configured@),
{
    if no_log {
        return None;
    }
    match argument {
        Some(argument) => Some(argument),
        None => if configured.as_str().unicode_len() == 0 {
            None
        } else {
            Some(configured.clone())
        },
    }
}

/// What a source is called: by the name that is configured, or else by its kind, with a number
/// where several of the kind are enabled.
pub open spec fn source_name_text(
    configured: Seq<char>,
    type_default: Seq<char>,
    idx: nat,
    total_enabled: nat,
) -> Seq<char> {
    if configured.len() > 0 {
        configured
    } else if total_enabled <= 1 {
        type_default
    } else {
        type_default + " "@ + text::decimal(idx + 1)
    }
}

/// What a source is called.
pub fn source_name(configured: &str, type_default: &str, idx: usize, total_enabled: usize) -> (name:
    String)
    ensures
        name@ == source_name_text(
            configured@,
            type_default@,
            idx as nat,
            total_enabled as nat,
        ),
{
    if configured.unicode_len() > 0 {
        configured.to_owned()
    } else if total_enabled <= 1 {
        type_default.to_owned()
    } else {
        let mut name: String = String::from_str(type_default);
        name.append(" ");
        text::push_decimal(&mut name, idx as u128 + 1);
        name
    }
}

/// A kind of stream that is recorded under an id of its own.
#[derive(Debug, Clone, Copy, PartialEq, Eq, Structural)]
pub enum SourceKind {
    RawUdp,
    JitoShreds,
    JitoEntries,
    DoubleZero,
    Yellowstone,
    YellowstoneAccount,
    Pcap,
}

/// What the plan says of one stream of a source.
#[verifier::ext_equal]
pub struct StreamView {
    pub kind: SourceKind,
    /// The name that is configured, or nothing.
    pub configured: Seq<char>,
    pub type_default: Seq<char>,
    pub active: bool,
}

/// What the plan is made from: whether a source is enabled, and its streams.
#[verifier::ext_equal]
pub struct EntryView {
    pub enabled: bool,
    pub streams: Seq<StreamView>,
}

/// A stream of a run.
#[verifier::ext_equal]
pub struct PlannedView {
    pub kind: SourceKind,
    /// The place of the source among those of its kind.
    pub place: nat,
    pub name: Seq<char>,
    pub active: bool,
}

/// How many of the first `count` sources are enabled.
pub open spec fn enabled_in(entries: Seq<EntryView>, count: int) -> nat
    decreases count,
{
    if count <= 0 {
        0
    } else {
        enabled_in(entries, count - 1) + if entries[count - 1].enabled {
            1nat
        } else {
            0nat
        }
    }
}

/// The streams of one source.
pub open spec fn planned_streams(
    streams: Seq<StreamView>,
    place: nat,
    idx: nat,
    total: nat,
) -> Seq<PlannedView> {
    streams.map_values(
        |stream: StreamView|
            PlannedView {
                kind: stream.kind,
                place,
                name: source_name_text(stream.configured, stream.type_default, idx, total),
                active: stream.active,
            },
    )
}

/// The streams of those of the first `count` sources that are enabled, in their order.
pub open spec fn planned(entries: Seq<EntryView>, count: int) -> Seq<PlannedView>
    decreases count,
{
    if count <= 0 {
        Seq::empty()
    } else {
        let before = planned(entries, count - 1);
        if entries[count - 1].enabled {
            before + planned_streams(
                entries[count - 1].streams,
                (count - 1) as nat,
                enabled_in(entries, count - 1),
                enabled_in(entries, entries.len() as int),
            )
        } else {
            before
        }
    }
}

pub open spec fn raw_udp_entry(config: RawUdpConfig) -> EntryView {
    EntryView {
        enabled: config.enabled,
        streams: seq![
            StreamView {
                kind: SourceKind::RawUdp,
                configured: config.name@,
                type_default: "Raw UDP"@,
                active: true,
            },
        ],
    }
}

/// A Jito source has a stream of shreds, from a block engine or a proxy, and one of entries, from
/// a proxy. Both have an id, whether or not they are configured.
pub open spec fn jito_entry(config: JitoConfig) -> EntryView {
    EntryView {
        enabled: config.enabled,
        streams: seq![
            StreamView {
                kind: SourceKind::JitoShreds,
                configured: config.name@,
                type_default: "Jito ShredStream"@,
                active: config.block_engine_url@.len() > 0 || config.proxy_udp_addr@.len() > 0,
            },
            StreamView {
                kind: SourceKind::JitoEntries,
                configured: if config.name@.len() > 0 {
                    config.name@ + " (entries)"@
                } else {
                    Seq::empty()
                },
                type_default: "Jito Entries"@,
                active: config.proxy_grpc_addr@.len() > 0,
            },
        ],
    }
}

pub open spec fn doublezero_entry(config: DoubleZeroConfig) -> EntryView {
    EntryView {
        enabled: config.enabled,
        streams: seq![
            StreamView {
                kind: SourceKind::DoubleZero,
                configured: config.name@,
                type_default: "DoubleZero"@,
                active: true,
            },
        ],
    }
}

/// A Yellowstone source has a stream of slots, and one of account updates where an account is
/// given.
pub open spec fn yellowstone_entry(config: YellowstoneConfig) -> EntryView {
    let slots = StreamView {
        kind: SourceKind::Yellowstone,
        configured: config.name@,
        type_default: "Yellowstone"@,
        active: true,
    };
    EntryView {
        enabled: config.enabled,
        streams: if config.account_pubkey@.len() == 0 {
            seq![slots]
        } else {
            seq![
                slots,
                StreamView {
                    kind: SourceKind::YellowstoneAccount,
                    configured: if config.account_name@.len() > 0 {
                        config.account_name@
                    } else if config.name@.len() > 0 {
                        config.name@ + " (account)"@
                    } else {
                        Seq::empty()
                    },
                    type_default: "Yellowstone Account"@,
                    active: true,
                },
            ]
        },
    }
}

pub open spec fn pcap_entry(config: PcapConfig) -> EntryView {
    EntryView {
        enabled: config.enabled,
        streams: seq![
            StreamView {
                kind: SourceKind::Pcap,
                configured: config.name@,
                type_default: "Raw Capture"@,
                active: true,
            },
        ],
    }
}

pub open spec fn raw_udp_entries(configs: Seq<RawUdpConfig>) -> Seq<EntryView> {
    configs.map_values(|config: RawUdpConfig| raw_udp_entry(config))
}

pub open spec fn jito_entries(configs: Seq<JitoConfig>) -> Seq<EntryView> {
    configs.map_values(|config: JitoConfig| jito_entry(config))
}

pub open spec fn doublezero_entries(configs: Seq<DoubleZeroConfig>) -> Seq<EntryView> {
    configs.map_values(|config: DoubleZeroConfig| doublezero_entry(config))
}

pub open spec fn yellowstone_entries(configs: Seq<YellowstoneConfig>) -> Seq<EntryView> {
    configs.map_values(|config: YellowstoneConfig| yellowstone_entry(config))
}

pub open spec fn pcap_entries(configs: Seq<PcapConfig>) -> Seq<EntryView> {
    configs.map_values(|config: PcapConfig| pcap_entry(config))
}

/// The streams of all sources of a kind that are enabled.
pub open spec fn all_planned(entries: Seq<EntryView>) -> Seq<PlannedView> {
    planned(entries, entries.len() as int)
}

/// The streams of a run.
pub open spec fn plan_of(sources: SourcesConfig) -> Seq<PlannedView> {
    all_planned(raw_udp_entries(sources.raw_udp@)) + all_planned(jito_entries(sources.jito@))
        + all_planned(doublezero_entries(sources.doublezero@)) + all_planned(
        yellowstone_entries(sources.yellowstone@),
    ) + all_planned(pcap_entries(sources.pcap@))
}

/// One stream of a source.
struct Stream {
    kind: SourceKind,
    configured: String,
    type_default: &'static str,
    active: bool,
}

impl View for Stream {
    type V = StreamView;

    closed spec fn view(&self) -> StreamView {
        StreamView {
            kind: self.kind,
            configured: self.configured@,
            type_default: self.type_default@,
            active: self.active,
        }
    }
}

/// A source with its streams.
struct Entry {
    enabled: bool,
    streams: Vec<Stream>,
}

impl View for Entry {
    type V = EntryView;

    closed spec fn view(&self) -> EntryView {
        EntryView {
            enabled: self.enabled,
            streams: self.streams@.map_values(|stream: Stream| stream@),
        }
    }
}

spec fn entry_views(entries: Seq<Entry>) -> Seq<EntryView> {
    entries.map_values(|entry: Entry| entry@)
}

/// What the plan is made from, for one kind of source.
fn list_raw_udp(configs: &Vec<RawUdpConfig>) -> (entries: Vec<Entry>)
    ensures
        entry_views(entries@) == raw_udp_entries(configs@),
        forall|i: int|
            0 <= i < entries@.len() ==> (#[trigger] entries@[i]).streams@.len() <= 2,
        entries@.len() == configs@.len(),
{
    let mut entries: Vec<Entry> = Vec::new();
    let mut n: usize = 0;
    while n < configs.len()
        invariant
            n <= configs@.len(),
            entries@.len() == n,
            forall|i: int| 0 <= i < n ==> (#[trigger] entries@[i])@ == raw_udp_entry(configs@[i]),
            forall|i: int| 0 <= i < n ==> (#[trigger] entries@[i]).streams@.len() <= 2,
        decreases configs@.len() - n,
    {
        let config: &RawUdpConfig = &configs[n];
        let mut streams: Vec<Stream> = Vec::new();
        streams.push(
            Stream {
                kind: SourceKind::RawUdp,
                configured: config.name.clone(),
                type_default: "Raw UDP",
                active: true,
            },
        );
        let entry = Entry { enabled: config.enabled, streams };
        assert(entry@ =~= raw_udp_entry(*config));
        entries.push(entry);
        n = n + 1;
    }
    assert(entry_views(entries@) =~= raw_udp_entries(configs@));
    entries
}

/// What the plan is made from, for one kind of source.
fn list_jito(configs: &Vec<JitoConfig>) -> (entries: Vec<Entry>)
    ensures
        entry_views(entries@) == jito_entries(configs@),
        forall|i: int|
            0 <= i < entries@.len() ==> (#[trigger] entries@[i]).streams@.len() <= 2,
        entries@.len() == configs@.len(),
{
    let mut entries: Vec<Entry> = Vec::new();
    let mut n: usize = 0;
    while n < configs.len()
        invariant
            n <= configs@.len(),
            entries@.len() == n,
            forall|i: int| 0 <= i < n ==> (#[trigger] entries@[i])@ == jito_entry(configs@[i]),
            forall|i: int| 0 <= i < n ==> (#[trigger] entries@[i]).streams@.len() <= 2,
        decreases configs@.len() - n,
    {
        let config: &JitoConfig = &configs[n];
        let mut streams: Vec<Stream> = Vec::new();
        streams.push(
            Stream {
                kind: SourceKind::JitoShreds,
                configured: config.name.clone(),
                type_default: "Jito ShredStream",
                active: !is_empty(&config.block_engine_url)
                    || !is_empty(&config.proxy_udp_addr),
            },
        );
        let entries_name: String = if is_empty(&config.name) {
            String::new()
        } else {
            config.name.clone().concat(" (entries)")
        };
        streams.push(
            Stream {
                kind: SourceKind::JitoEntries,
                configured: entries_name,
                type_default: "Jito Entries",
                active: !is_empty(&config.proxy_grpc_addr),
            },
        );
        let entry = Entry { enabled: config.enabled, streams };
        assert(entry@ =~= jito_entry(*config));
        entries.push(entry);
        n = n + 1;
    }
    assert(entry_views(entries@) =~= jito_entries(configs@));
    entries
}

/// What the plan is made from, for one kind of source.
fn list_doublezero(configs: &Vec<DoubleZeroConfig>) -> (entries: Vec<Entry>)
    ensures
        entry_views(entries@) == doublezero_entries(configs@),
        forall|i: int|
            0 <= i < entries@.len() ==> (#[trigger] entries@[i]).streams@.len() <= 2,
        entries@.len() == configs@.len(),
{
    let mut entries: Vec<Entry> = Vec::new();
    let mut n: usize = 0;
    while n < configs.len()
        invariant
            n <= configs@.len(),
            entries@.len() == n,
            forall|i: int| 0 <= i < n ==> (#[trigger] entries@[i])@ == doublezero_entry(configs@[i]),
            forall|i: int| 0 <= i < n ==> (#[trigger] entries@[i]).streams@.len() <= 2,
        decreases configs@.len() - n,
    {
        let config: &DoubleZeroConfig = &configs[n];
        let mut streams: Vec<Stream> = Vec::new();
        streams.push(
            Stream {
                kind: SourceKind::DoubleZero,
                configured: config.name.clone(),
                type_default: "DoubleZero",
                active: true,
            },
        );
        let entry = Entry { enabled: config.enabled, streams };
        assert(entry@ =~= doublezero_entry(*config));
        entries.push(entry);
        n = n + 1;
    }
    assert(entry_views(entries@) =~= doublezero_entries(configs@));
    entries
}

/// What the plan is made from, for one kind of source.
fn list_yellowstone(configs: &Vec<YellowstoneConfig>) -> (entries: Vec<Entry>)
    ensures
        entry_views(entries@) == yellowstone_entries(configs@),
        forall|i: int|
            0 <= i < entries@.len() ==> (#[trigger] entries@[i]).streams@.len() <= 2,
        entries@.len() == configs@.len(),
{
    let mut entries: Vec<Entry> = Vec::new();
    let mut n: usize = 0;
    while n < configs.len()
        invariant
            n <= configs@.len(),
            entries@.len() == n,
            forall|i: int| 0 <= i < n ==> (#[trigger] entries@[i])@ == yellowstone_entry(configs@[i]),
            forall|i: int| 0 <= i < n ==> (#[trigger] entries@[i]).streams@.len() <= 2,
        decreases configs@.len() - n,
    {
        let config: &YellowstoneConfig = &configs[n];
        let mut streams: Vec<Stream> = Vec::new();
        streams.push(
            Stream {
                kind: SourceKind::Yellowstone,
                configured: config.name.clone(),
                type_default: "Yellowstone",
                active: true,
            },
        );
        if !is_empty(&config.account_pubkey) {
            let account_name: String = if !is_empty(&config.account_name) {
                config.account_name.clone()
            } else if !is_empty(&config.name) {
                config.name.clone().concat(" (account)")
            } else {
                String::new()
            };
            streams.push(
                Stream {
                    kind: SourceKind::YellowstoneAccount,
                    configured: account_name,
                    type_default: "Yellowstone Account",
                    active: true,
                },
            );
        }
        let entry = Entry { enabled: config.enabled, streams };
        assert(entry@ =~= yellowstone_entry(*config));
        entries.push(entry);
        n = n + 1;
    }
    assert(entry_views(entries@) =~= yellowstone_entries(configs@));
    entries
}

/// What the plan is made from, for one kind of source.
fn list_pcap(configs: &Vec<PcapConfig>) -> (entries: Vec<Entry>)
    ensures
        entry_views(entries@) == pcap_entries(configs@),
        forall|i: int|
            0 <= i < entries@.len() ==> (#[trigger] entries@[i]).streams@.len() <= 2,
        entries@.len() == configs@.len(),
{
    let mut entries: Vec<Entry> = Vec::new();
    let mut n: usize = 0;
    while n < configs.len()
        invariant
            n <= configs@.len(),
            entries@.len() == n,
            forall|i: int| 0 <= i < n ==> (#[trigger] entries@[i])@ == pcap_entry(configs@[i]),
            forall|i: int| 0 <= i < n ==> (#[trigger] entries@[i]).streams@.len() <= 2,
        decreases configs@.len() - n,
    {
        let config: &PcapConfig = &configs[n];
        let mut streams: Vec<Stream> = Vec::new();
        streams.push(
            Stream {
                kind: SourceKind::Pcap,
                configured: config.name.clone(),
                type_default: "Raw Capture",
                active: true,
            },
        );
        let entry = Entry { enabled: config.enabled, streams };
        assert(entry@ =~= pcap_entry(*config));
        entries.push(entry);
        n = n + 1;
    }
    assert(entry_views(entries@) =~= pcap_entries(configs@));
    entries
}

fn is_empty(text: &String) -> (empty: bool)
    ensures
        empty == (text@.len() == 0),
{
    text.as_str().unicode_len() == 0
}

/// A stream that a run records.
#[derive(Debug)]
pub struct PlannedSource {
    pub kind: SourceKind,
    /// The place of the source among those of its kind.
    pub place: usize,
    pub id: SourceId,
    pub name: String,
    /// Whether the stream is configured.
    pub active: bool,
}

impl View for PlannedSource {
    type V = PlannedView;

    open spec fn view(&self) -> PlannedView {
        PlannedView {
            kind: self.kind,
            place: self.place as nat,
            name: self.name@,
            active: self.active,
        }
    }
}

/// The streams of a plan.
pub open spec fn planned_views(plan: Seq<PlannedSource>) -> Seq<PlannedView> {
    plan.map_values(|source: PlannedSource| source@)
}

/// Every stream of a plan has its place as its id.
pub open spec fn numbered(plan: Seq<PlannedSource>) -> bool {
    forall|i: int| 0 <= i < plan.len() ==> (#[trigger] plan[i]).id == SourceId::Instance(i as u32)
}

/// How many of the sources are enabled.
fn count_enabled(entries: &Vec<Entry>) -> (count: usize)
    ensures
        count == enabled_in(entry_views(entries@), entries@.len() as int),
{
    let mut count: usize = 0;
    let mut n: usize = 0;
    while n < entries.len()
        invariant
            n <= entries@.len(),
            count <= n,
            count == enabled_in(entry_views(entries@), n as int),
        decreases entries@.len() - n,
    {
        assert(entry_views(entries@)[n as int] == entries@[n as int]@);
        if entries[n].enabled {
            count = count + 1;
        }
        n = n + 1;
    }
    count
}

/// Puts the streams of the sources that are enabled behind a plan.
fn plan_kind(entries: &Vec<Entry>, plan: &mut Vec<PlannedSource>)
    requires
        numbered(old(plan)@),
        forall|i: int|
            0 <= i < entries@.len() ==> (#[trigger] entries@[i]).streams@.len() <= 2,
        old(plan)@.len() + 2 * entries@.len() <= u32::MAX,
    ensures
        planned_views(final(plan)@) == planned_views(old(plan)@) + all_planned(
            entry_views(entries@),
        ),
        numbered(final(plan)@),
        final(plan)@.len() <= old(plan)@.len() + 2 * entries@.len(),
{
    let total: usize = count_enabled(entries);
    let ghost before = planned_views(plan@);
    let ghost views = entry_views(entries@);
    let mut idx: usize = 0;
    let mut n: usize = 0;
    assert(before + planned(views, 0) =~= before);
    while n < entries.len()
        invariant
            n <= entries@.len(),
            idx <= n,
            views == entry_views(entries@),
            total == enabled_in(views, entries@.len() as int),
            idx == enabled_in(views, n as int),
            forall|i: int|
                0 <= i < entries@.len() ==> (#[trigger] entries@[i]).streams@.len() <= 2,
            old(plan)@.len() + 2 * entries@.len() <= u32::MAX,
            plan@.len() <= old(plan)@.len() + 2 * n,
            numbered(plan@),
            planned_views(plan@) == before + planned(views, n as int),
        decreases entries@.len() - n,
    {
        let entry: &Entry = &entries[n];
        assert(views[n as int] == entries@[n as int]@);
        if entry.enabled {
            let ghost sofar = planned_views(plan@);
            let ghost streams = entry@.streams;
            let ghost added = planned_streams(streams, n as nat, idx as nat, total as nat);
            let ghost start = plan@.len();
            let mut k: usize = 0;
            while k < entry.streams.len()
                invariant
                    k <= entry.streams@.len() <= 2,
                    streams == entry.streams@.map_values(|stream: Stream| stream@),
                    added == planned_streams(streams, n as nat, idx as nat, total as nat),
                    plan@.len() == start + k,
                    start + 2 <= u32::MAX,
                    numbered(plan@),
                    planned_views(plan@) == sofar + added.take(k as int),
                decreases entry.streams@.len() - k,
            {
                let stream: &Stream = &entry.streams[k];
                assert(streams[k as int] == stream@);
                let source = PlannedSource {
                    kind: stream.kind,
                    place: n,
                    id: SourceId::Instance(plan.len() as u32),
                    name: source_name(
                        stream.configured.as_str(),
                        stream.type_default,
                        idx,
                        total,
                    ),
                    active: stream.active,
                };
                assert(source@ =~= added[k as int]);
                let ghost was = plan@;
                plan.push(source);
                assert(planned_views(plan@) =~= planned_views(was).push(source@));
                assert(planned_views(plan@) =~= sofar + added.take(k + 1));
                k = k + 1;
            }
            assert(added.take(k as int) =~= added);
            assert(planned_views(plan@) =~= before + planned(views, n + 1));
            idx = idx + 1;
        }
        n = n + 1;
    }
}

/// Whether one of the sources is enabled.
pub open spec fn some_enabled(entries: Seq<EntryView>) -> bool {
    exists|i: int| 0 <= i < entries.len() && (#[trigger] entries[i]).enabled
}

/// Whether any source is enabled.
pub open spec fn any_enabled(sources: SourcesConfig) -> bool {
    ||| some_enabled(raw_udp_entries(sources.raw_udp@))
    ||| some_enabled(jito_entries(sources.jito@))
    ||| some_enabled(doublezero_entries(sources.doublezero@))
    ||| some_enabled(yellowstone_entries(sources.yellowstone@))
    ||| some_enabled(pcap_entries(sources.pcap@))
}

/// Some source is enabled if and only if there is one at least.
proof fn lemma_enabled_count(entries: Seq<EntryView>, count: int)
    requires
        0 <= count <= entries.len(),
    ensures
        enabled_in(entries, count) > 0 <==> exists|i: int|
            0 <= i < count && (#[trigger] entries[i]).enabled,
    decreases count,
{
    if count > 0 {
        lemma_enabled_count(entries, count - 1);
        if entries[count - 1].enabled {
            assert(entries[count - 1].enabled);
        }
    }
}

fn has_enabled(entries: &Vec<Entry>) -> (has: bool)
    ensures
        has == some_enabled(entry_views(entries@)),
{
    proof {
        lemma_enabled_count(entry_views(entries@), entries@.len() as int);
    }
    count_enabled(entries) > 0
}

impl SourcesConfig {
    /// Whether any source is enabled; a run needs one.
    pub fn any_source(&self) -> (any: bool)
        ensures
            any == any_enabled(*self),
    {
        has_enabled(&list_raw_udp(&self.raw_udp)) || has_enabled(&list_jito(&self.jito))
            || has_enabled(&list_doublezero(&self.doublezero)) || has_enabled(
            &list_yellowstone(&self.yellowstone),
        ) || has_enabled(&list_pcap(&self.pcap))
    }

    /// The streams of a run, with their ids and names.
    pub fn plan(&self) -> (plan: Vec<PlannedSource>)
        requires
            2 * (self.raw_udp@.len() + self.jito@.len() + self.doublezero@.len()
                + self.yellowstone@.len() + self.pcap@.len()) <= u32::MAX,
        ensures
            planned_views(plan@) == plan_of(*self),
            numbered(plan@),
    {
        let mut plan: Vec<PlannedSource> = Vec::new();
        let raw_udp: Vec<Entry> = list_raw_udp(&self.raw_udp);
        let jito: Vec<Entry> = list_jito(&self.jito);
        let doublezero: Vec<Entry> = list_doublezero(&self.doublezero);
        let yellowstone: Vec<Entry> = list_yellowstone(&self.yellowstone);
        let pcap: Vec<Entry> = list_pcap(&self.pcap);
        plan_kind(&raw_udp, &mut plan);
        plan_kind(&jito, &mut plan);
        plan_kind(&doublezero, &mut plan);
        plan_kind(&yellowstone, &mut plan);
        plan_kind(&pcap, &mut plan);
        assert(planned_views(plan@) =~= plan_of(*self));
        plan
    }
}

impl Default for RawUdpConfig {
    fn default() -> (config: Self)
        ensures
            config.name@ == Seq::<char>::empty(),
            !config.enabled,
            config.bind_addr@ == Seq::<char>::empty(),
            config.recv_buf_size == 0,
    {
        RawUdpConfig {
            name: String::new(),
            enabled: false,
            bind_addr: String::new(),
            recv_buf_size: 0,
        }
    }
}

impl Default for JitoConfig {
    fn default() -> (config: Self)
        ensures
            config.name@ == Seq::<char>::empty(),
            !config.enabled,
            config.block_engine_url@ == Seq::<char>::empty(),
            config.auth_keypair_path@ == Seq::<char>::empty(),
            config.desired_regions@.len() == 0,
            config.public_ip@ == Seq::<char>::empty(),
            config.udp_bind_addr@ == Seq::<char>::empty(),
            config.proxy_udp_addr@ == Seq::<char>::empty(),
            config.proxy_grpc_addr@ == Seq::<char>::empty(),
    {
        JitoConfig {
            name: String::new(),
            enabled: false,
            block_engine_url: String::new(),
            auth_keypair_path: String::new(),
            desired_regions: Vec::new(),
            public_ip: String::new(),
            udp_bind_addr: String::new(),
            proxy_udp_addr: String::new(),
            proxy_grpc_addr: String::new(),
        }
    }
}

impl Default for DoubleZeroConfig {
    fn default() -> (config: Self)
        ensures
            config.name@ == Seq::<char>::empty(),
            !config.enabled,
            config.multicast_group@ == Seq::<char>::empty(),
            config.port == 0,
            config.interface@ == Seq::<char>::empty(),
    {
        DoubleZeroConfig {
            name: String::new(),
            enabled: false,
            multicast_group: String::new(),
            port: 0,
            interface: String::new(),
        }
    }
}

impl Default for YellowstoneConfig {
    fn default() -> (config: Self)
        ensures
            config.name@ == Seq::<char>::empty(),
            !config.enabled,
            config.endpoint@ == Seq::<char>::empty(),
            config.x_token@ == Seq::<char>::empty(),
            config.account_pubkey@ == Seq::<char>::empty(),
            config.account_name@ == Seq::<char>::empty(),
    {
        YellowstoneConfig {
            name: String::new(),
            enabled: false,
            endpoint: String::new(),
            x_token: String::new(),
            account_pubkey: String::new(),
            account_name: String::new(),
        }
    }
}

impl Default for PcapConfig {
    fn default() -> (config: Self)
        ensures
            config.name@ == Seq::<char>::empty(),
            !config.enabled,
            config.port == 0,
            config.interface@ == Seq::<char>::empty(),
            config.recv_buf_size == 0,
    {
        PcapConfig {
            name: String::new(),
            enabled: false,
            port: 0,
            interface: String::new(),
            recv_buf_size: 0,
        }
    }
}

impl Default for OutputConfig {
    fn default() -> (config: Self)
        ensures
            config.log_file@ == Seq::<char>::empty(),
    {
        OutputConfig {
            log_file: String::new(),
        }
    }
}

impl Default for SourcesConfig {
    fn default() -> (config: Self)
        ensures
            config.raw_udp@.len() == 0,
            config.jito@.len() == 0,
            config.doublezero@.len() == 0,
            config.yellowstone@.len() == 0,
            config.pcap@.len() == 0,
    {
        SourcesConfig {
            raw_udp: Vec::new(),
            jito: Vec::new(),
            doublezero: Vec::new(),
            yellowstone: Vec::new(),
            pcap: Vec::new(),
        }
    }
}

impl Default for Config {
    fn default() -> (config: Self)
        ensures
            config.duration_secs == 0,
            config.start_slot is None,
            config.end_slot is None,
            config.silence_timeout_secs == 0,
            !any_enabled(config.sources),
            config.output.log_file@ == Seq::<char>::empty(),
    {
        Config {
            duration_secs: 0,
            start_slot: None,
            end_slot: None,
            silence_timeout_secs: 0,
            sources: SourcesConfig::default(),
            output: OutputConfig::default(),
        }
    }
}

/// Whether a stream is of shreds, rather than of signs of slots.
pub open spec fn delivers_shreds(kind: SourceKind) -> bool {
    match kind {
        SourceKind::RawUdp
        | SourceKind::JitoShreds
        | SourceKind::DoubleZero
        | SourceKind::Pcap => true,
        SourceKind::JitoEntries
        | SourceKind::Yellowstone
        | SourceKind::YellowstoneAccount => false,
    }
}

/// The places of the active streams in a plan that are of shreds, or that are not.
pub open spec fn active_places(plan: Seq<PlannedSource>, shreds: bool, count: int) -> Seq<int>
    decreases count,
{
    if count <= 0 {
        Seq::empty()
    } else {
        let before = active_places(plan, shreds, count - 1);
        let last = plan[count - 1];
        if last.active && delivers_shreds(last.kind) == shreds {
            before.push(count - 1)
        } else {
            before
        }
    }
}

impl SourceKind {
    pub fn delivers_shreds(&self) -> (delivers: bool)
        ensures
            delivers == delivers_shreds(*self),
    {
        match self {
            SourceKind::RawUdp
            | SourceKind::JitoShreds
            | SourceKind::DoubleZero
            | SourceKind::Pcap => true,
            SourceKind::JitoEntries
            | SourceKind::Yellowstone
            | SourceKind::YellowstoneAccount => false,
        }
    }
}

/// `active` is the ids and names of the active streams in a plan that are of shreds, or that are
/// not.
pub open spec fn lists_active(
    active: Seq<(SourceId, String)>,
    plan: Seq<PlannedSource>,
    shreds: bool,
) -> bool {
    let places = active_places(plan, shreds, plan.len() as int);
    &&& active.len() == places.len()
    &&& forall|i: int|
        #![trigger active[i]]
        0 <= i < active.len() ==> active[i].0 == plan[places[i]].id && active[i].1@
            == plan[places[i]].name@
}

/// The ids and names of the active streams in a plan that are of shreds, or that are not.
pub fn active_sources(plan: &Vec<PlannedSource>, shreds: bool) -> (active: Vec<(SourceId, String)>)
    ensures
        ({
            let places = active_places(plan@, shreds, plan@.len() as int);
            &&& active@.len() == places.len()
            &&& forall|i: int|
                #![trigger active@[i]]
                0 <= i < active@.len() ==> active@[i].0 == plan@[places[i]].id && active@[i].1@
                    == plan@[places[i]].name@
        }),
        lists_active(active@, plan@, shreds),
{
    let mut active: Vec<(SourceId, String)> = Vec::new();
    let mut n: usize = 0;
    while n < plan.len()
        invariant
            n <= plan@.len(),
            active@.len() == active_places(plan@, shreds, n as int).len(),
            forall|i: int|
                #![trigger active@[i]]
                0 <= i < active@.len() ==> active@[i].0 == plan@[active_places(
                    plan@,
                    shreds,
                    n as int,
                )[i]].id && active@[i].1@ == plan@[active_places(
                    plan@,
                    shreds,
                    n as int,
                )[i]].name@,
        decreases plan@.len() - n,
    {
        if plan[n].active && plan[n].kind.delivers_shreds() == shreds {
            active.push((plan[n].id, plan[n].name.clone()));
        }
        n = n + 1;
    }
    active
}

/// A plan has streams if and only if a source is enabled.
pub proof fn lemma_plan_needs_a_source(sources: SourcesConfig)
    ensures
        plan_of(sources).len() > 0 <==> any_enabled(sources),
{
    lemma_planned_any(
        raw_udp_entries(sources.raw_udp@),
        raw_udp_entries(sources.raw_udp@).len() as int,
    );
    lemma_planned_any(jito_entries(sources.jito@), jito_entries(sources.jito@).len() as int);
    lemma_planned_any(
        doublezero_entries(sources.doublezero@),
        doublezero_entries(sources.doublezero@).len() as int,
    );
    lemma_planned_any(
        yellowstone_entries(sources.yellowstone@),
        yellowstone_entries(sources.yellowstone@).len() as int,
    );
    lemma_planned_any(pcap_entries(sources.pcap@), pcap_entries(sources.pcap@).len() as int);
}

proof fn lemma_planned_any(entries: Seq<EntryView>, count: int)
    requires
        0 <= count <= entries.len(),
        forall|i: int| 0 <= i < entries.len() ==> (#[trigger] entries[i]).streams.len() > 0,
    ensures
        planned(entries, count).len() > 0 <==> exists|i: int|
            0 <= i < count && (#[trigger] entries[i]).enabled,
    decreases count,
{
    if count > 0 {
        lemma_planned_any(entries, count - 1);
        let last = entries[count - 1];
        if last.enabled {
            assert(entries[count - 1].enabled);
            assert(entries[count - 1].streams.len() > 0);
        }
    }
}

} // verus!
