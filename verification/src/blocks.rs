//! What the blocks that were reconstructed amount to, source by source.

use std::collections::HashMap;

use vstd::prelude::*;

use crate::percentiles;
use crate::registry::{ReconstructionEvent, SourceId};
use crate::slot;
use crate::stats;

verus! {

broadcast use vstd::std_specs::hash::group_hash_axioms;

/// When the fastest source had a slot's block.
pub open spec fn fastest(events: Seq<ReconstructionEvent>, slot: u64) -> Option<u64>
    decreases events.len(),
{
    if events.len() == 0 {
        None
    } else {
        let before = fastest(events.drop_last(), slot);
        let last = events.last();
        if last.slot != slot {
            before
        } else {
            match before {
                Some(at) if at <= last.reconstructable_at => Some(at),
                _ => Some(last.reconstructable_at),
            }
        }
    }
}

/// The slots of which a source had the block.
pub open spec fn slots_of(events: Seq<ReconstructionEvent>) -> Set<u64> {
    Set::new(|slot: u64| fastest(events, slot) is Some)
}

/// How long after the fastest source a source had a block.
pub open spec fn behind(events: Seq<ReconstructionEvent>) -> spec_fn(ReconstructionEvent) -> u64 {
    |event: ReconstructionEvent|
        stats::since(event.reconstructable_at, fastest(events, event.slot)->0)
}

/// How long after its first shred a source had a block.
pub open spec fn assembling() -> spec_fn(ReconstructionEvent) -> u64 {
    |event: ReconstructionEvent|
        stats::since(event.reconstructable_at, event.first_source_shred_at)
}

/// Whether no source had a block before.
pub open spec fn came_first(events: Seq<ReconstructionEvent>) -> spec_fn(
    ReconstructionEvent,
) -> bool {
    |event: ReconstructionEvent| behind(events)(event) == 0
}

/// The blocks of one source.
pub open spec fn is_from(source: SourceId) -> spec_fn(ReconstructionEvent) -> bool {
    |event: ReconstructionEvent| event.source == source
}

/// A sum that stops at the largest number there is.
pub open spec fn total(values: Seq<u64>) -> u64 {
    slot::saturated(percentiles::sum(values) as int, u64::MAX as int) as u64
}

/// What the blocks of a source amount to.
#[verifier::ext_equal]
pub struct BlockSourceStatsView {
    pub id: SourceId,
    pub name: Seq<char>,
    pub completed_slots: nat,
    pub wins: nat,
    pub recovered_data_shreds: u64,
    pub fec_sets_recovered: u64,
    pub received_shreds: u64,
    pub expected_data_shreds: u64,
    pub entries: u64,
    pub transactions: u64,
    pub relative_latency_ns: Seq<u64>,
    pub assembly_latency_ns: Seq<u64>,
    pub reconstruction_cpu_ns: Seq<u64>,
}

/// What the blocks `mine` of a source amount to among those of all sources.
pub open spec fn block_source_stats(
    mine: Seq<ReconstructionEvent>,
    events: Seq<ReconstructionEvent>,
    id: SourceId,
    name: Seq<char>,
) -> BlockSourceStatsView {
    BlockSourceStatsView {
        id,
        name,
        completed_slots: mine.len(),
        wins: mine.filter(came_first(events)).len(),
        recovered_data_shreds: total(
            mine.map_values(|event: ReconstructionEvent| event.recovered_data_shreds as u64),
        ),
        fec_sets_recovered: total(
            mine.map_values(|event: ReconstructionEvent| event.fec_sets_recovered as u64),
        ),
        received_shreds: total(
            mine.map_values(|event: ReconstructionEvent| event.received_shreds as u64),
        ),
        expected_data_shreds: total(
            mine.map_values(|event: ReconstructionEvent| event.expected_data_shreds as u64),
        ),
        entries: total(mine.map_values(|event: ReconstructionEvent| event.entries)),
        transactions: total(mine.map_values(|event: ReconstructionEvent| event.transactions)),
        relative_latency_ns: mine.map_values(behind(events)),
        assembly_latency_ns: mine.map_values(assembling()),
        reconstruction_cpu_ns: mine.map_values(
            |event: ReconstructionEvent| event.reconstruction_cpu_ns,
        ),
    }
}

/// The blocks of a source.
#[derive(Debug)]
pub struct BlockSourceStats {
    pub id: SourceId,
    pub name: String,
    pub completed_slots: u64,
    /// How many blocks no source had before this one.
    pub wins: u64,
    pub recovered_data_shreds: u64,
    pub fec_sets_recovered: u64,
    pub received_shreds: u64,
    pub expected_data_shreds: u64,
    pub entries: u64,
    pub transactions: u64,
    /// How long after the fastest source each block was there.
    pub relative_latency_ns: Vec<u64>,
    /// How long after its first shred each block was there.
    pub assembly_latency_ns: Vec<u64>,
    pub reconstruction_cpu_ns: Vec<u64>,
}

impl View for BlockSourceStats {
    type V = BlockSourceStatsView;

    open spec fn view(&self) -> BlockSourceStatsView {
        BlockSourceStatsView {
            id: self.id,
            name: self.name@,
            completed_slots: self.completed_slots as nat,
            wins: self.wins as nat,
            recovered_data_shreds: self.recovered_data_shreds,
            fec_sets_recovered: self.fec_sets_recovered,
            received_shreds: self.received_shreds,
            expected_data_shreds: self.expected_data_shreds,
            entries: self.entries,
            transactions: self.transactions,
            relative_latency_ns: self.relative_latency_ns@,
            assembly_latency_ns: self.assembly_latency_ns@,
            reconstruction_cpu_ns: self.reconstruction_cpu_ns@,
        }
    }
}

/// The blocks of a run.
#[derive(Debug)]
pub struct BlockStats {
    /// How many slots there are of which some source had the block.
    pub total_slots: u64,
    pub sources: Vec<BlockSourceStats>,
}

/// What the blocks of a run amount to.
pub open spec fn block_stats(
    stats: BlockStats,
    events: Seq<ReconstructionEvent>,
    active: Seq<(SourceId, String)>,
) -> bool {
    &&& stats.total_slots == slots_of(events).len()
    &&& stats.sources@.len() == active.len()
    &&& forall|i: int|
        0 <= i < active.len() ==> (#[trigger] stats.sources@[i])@ == block_source_stats(
            events.filter(is_from(active[i].0)),
            events,
            active[i].0,
            active[i].1@,
        )
}

/// When the fastest source had the block of each slot.
fn find_fastest(events: &[ReconstructionEvent]) -> (times: HashMap<u64, u64>)
    ensures
        forall|slot: u64| #[trigger]
            fastest(events@, slot) == (if times@.contains_key(slot) {
                Some(times@[slot])
            } else {
                None
            }),
{
    let mut times: HashMap<u64, u64> = HashMap::new();
    let mut n: usize = 0;
    while n < events.len()
        invariant
            n <= events@.len(),
            forall|slot: u64| #[trigger]
                fastest(events@.take(n as int), slot) == (if times@.contains_key(slot) {
                    Some(times@[slot])
                } else {
                    None
                }),
        decreases events@.len() - n,
    {
        let event: ReconstructionEvent = events[n];
        let ghost before = times@;
        let known: Option<u64> = match times.get(&event.slot) {
            Some(at) => Some(*at),
            None => None,
        };
        proof {
            assert(events@.take(n + 1).drop_last() =~= events@.take(n as int));
            assert(fastest(events@.take(n as int), event.slot) == known);
        }
        match known {
            Some(at) if at <= event.reconstructable_at => {},
            _ => {
                times.insert(event.slot, event.reconstructable_at);
            },
        }
        proof {
            assert forall|slot: u64| #[trigger] fastest(events@.take(n + 1), slot) == (
            if times@.contains_key(slot) {
                Some(times@[slot])
            } else {
                None
            }) by {
                assert(fastest(events@.take(n as int), slot) == (if before.contains_key(slot) {
                    Some(before[slot])
                } else {
                    None
                }));
            }
        }
        n = n + 1;
    }
    assert(events@.take(n as int) =~= events@);
    times
}

/// A sum with one more summand.
pub open spec fn more(sofar: u64, value: u64) -> u64 {
    slot::saturated(sofar + value, u64::MAX as int) as u64
}

impl BlockSourceStatsView {
    /// With one more block, which was there `behind` the fastest one.
    pub open spec fn with(self, event: ReconstructionEvent, behind: u64) -> BlockSourceStatsView {
        BlockSourceStatsView {
            completed_slots: self.completed_slots + 1,
            wins: self.wins + if behind == 0 {
                1nat
            } else {
                0nat
            },
            recovered_data_shreds: more(
                self.recovered_data_shreds,
                event.recovered_data_shreds as u64,
            ),
            fec_sets_recovered: more(self.fec_sets_recovered, event.fec_sets_recovered as u64),
            received_shreds: more(self.received_shreds, event.received_shreds as u64),
            expected_data_shreds: more(
                self.expected_data_shreds,
                event.expected_data_shreds as u64,
            ),
            entries: more(self.entries, event.entries),
            transactions: more(self.transactions, event.transactions),
            relative_latency_ns: self.relative_latency_ns.push(behind),
            assembly_latency_ns: self.assembly_latency_ns.push(assembling()(event)),
            reconstruction_cpu_ns: self.reconstruction_cpu_ns.push(event.reconstruction_cpu_ns),
            ..self
        }
    }
}

/// One more number in a sum.
proof fn lemma_total_next(
    mine: Seq<ReconstructionEvent>,
    event: ReconstructionEvent,
    part: spec_fn(ReconstructionEvent) -> u64,
)
    ensures
        total(mine.push(event).map_values(part)) == more(
            total(mine.map_values(part)),
            part(event),
        ),
        mine.push(event).map_values(part) == mine.map_values(part).push(part(event)),
{
    let longer = mine.push(event).map_values(part);
    assert(longer =~= mine.map_values(part).push(part(event)));
    assert(longer.drop_last() =~= mine.map_values(part));
}

/// One more block in the list is one more in what the source amounts to.
proof fn lemma_block_source_stats_next(
    mine: Seq<ReconstructionEvent>,
    event: ReconstructionEvent,
    events: Seq<ReconstructionEvent>,
    id: SourceId,
    name: Seq<char>,
)
    ensures
        block_source_stats(mine.push(event), events, id, name) == block_source_stats(
            mine,
            events,
            id,
            name,
        ).with(event, behind(events)(event)),
        block_source_stats(mine, events, id, name).wins <= mine.len(),
{
    lemma_total_next(mine, event, |e: ReconstructionEvent| e.recovered_data_shreds as u64);
    lemma_total_next(mine, event, |e: ReconstructionEvent| e.fec_sets_recovered as u64);
    lemma_total_next(mine, event, |e: ReconstructionEvent| e.received_shreds as u64);
    lemma_total_next(mine, event, |e: ReconstructionEvent| e.expected_data_shreds as u64);
    lemma_total_next(mine, event, |e: ReconstructionEvent| e.entries);
    lemma_total_next(mine, event, |e: ReconstructionEvent| e.transactions);
    lemma_total_next(mine, event, |e: ReconstructionEvent| e.reconstruction_cpu_ns);
    lemma_total_next(mine, event, behind(events));
    lemma_total_next(mine, event, assembling());
    reveal(Seq::filter);
    assert(mine.push(event).drop_last() =~= mine);
    mine.lemma_filter_len(came_first(events));
}

impl BlockSourceStats {
    pub fn new(id: SourceId, name: String) -> (stats: BlockSourceStats)
        ensures
            stats@ == block_source_stats(Seq::empty(), Seq::empty(), id, name@),
    {
        let stats = BlockSourceStats {
            id,
            name,
            completed_slots: 0,
            wins: 0,
            recovered_data_shreds: 0,
            fec_sets_recovered: 0,
            received_shreds: 0,
            expected_data_shreds: 0,
            entries: 0,
            transactions: 0,
            relative_latency_ns: Vec::new(),
            assembly_latency_ns: Vec::new(),
            reconstruction_cpu_ns: Vec::new(),
        };
        proof {
            lemma_no_blocks(Seq::empty(), id, stats.name@);
            assert(stats@ =~= block_source_stats(Seq::empty(), Seq::empty(), id, stats.name@));
        }
        stats
    }

    /// Takes in one more block.
    pub fn note(&mut self, event: &ReconstructionEvent, behind: u64)
        requires
            old(self).completed_slots < u64::MAX,
            old(self).wins < u64::MAX,
        ensures
            final(self)@ == old(self)@.with(*event, behind),
    {
        self.completed_slots = self.completed_slots + 1;
        if behind == 0 {
            self.wins = self.wins + 1;
        }
        self.recovered_data_shreds = self.recovered_data_shreds.saturating_add(
            event.recovered_data_shreds as u64,
        );
        self.fec_sets_recovered = self.fec_sets_recovered.saturating_add(
            event.fec_sets_recovered as u64,
        );
        self.received_shreds = self.received_shreds.saturating_add(event.received_shreds as u64);
        self.expected_data_shreds = self.expected_data_shreds.saturating_add(
            event.expected_data_shreds as u64,
        );
        self.entries = self.entries.saturating_add(event.entries);
        self.transactions = self.transactions.saturating_add(event.transactions);
        self.relative_latency_ns.push(behind);
        self.assembly_latency_ns.push(
            event.reconstructable_at.saturating_sub(event.first_source_shred_at),
        );
        self.reconstruction_cpu_ns.push(event.reconstruction_cpu_ns);
    }
}

/// No blocks amount to nothing.
proof fn lemma_no_blocks(events: Seq<ReconstructionEvent>, id: SourceId, name: Seq<char>)
    ensures
        ({
            let none = block_source_stats(Seq::empty(), events, id, name);
            &&& none.wins == 0
            &&& none.recovered_data_shreds == 0
            &&& none.fec_sets_recovered == 0
            &&& none.received_shreds == 0
            &&& none.expected_data_shreds == 0
            &&& none.entries == 0
            &&& none.transactions == 0
            &&& none.relative_latency_ns == Seq::<u64>::empty()
            &&& none.assembly_latency_ns == Seq::<u64>::empty()
            &&& none.reconstruction_cpu_ns == Seq::<u64>::empty()
        }),
{
    reveal(Seq::filter);
}

/// Tallies the blocks of one source.
fn tally_blocks(
    events: &[ReconstructionEvent],
    times: &HashMap<u64, u64>,
    id: SourceId,
    name: String,
) -> (stats: BlockSourceStats)
    requires
        forall|slot: u64| #[trigger]
            fastest(events@, slot) == (if times@.contains_key(slot) {
                Some(times@[slot])
            } else {
                None
            }),
    ensures
        stats@ == block_source_stats(events@.filter(is_from(id)), events@, id, name@),
{
    let ghost label = name@;
    let mut stats: BlockSourceStats = BlockSourceStats::new(id, name);
    let mut n: usize = 0;
    proof {
        reveal(Seq::filter);
        lemma_no_blocks(Seq::empty(), id, label);
        lemma_no_blocks(events@, id, label);
        assert(events@.take(0).filter(is_from(id)) =~= Seq::empty());
        assert(stats@ =~= block_source_stats(Seq::empty(), events@, id, label));
    }
    while n < events.len()
        invariant
            n <= events@.len(),
            events@.len() == vstd::slice::spec_slice_len(events),
            forall|slot: u64| #[trigger]
                fastest(events@, slot) == (if times@.contains_key(slot) {
                    Some(times@[slot])
                } else {
                    None
                }),
            stats@ == block_source_stats(
                events@.take(n as int).filter(is_from(id)),
                events@,
                id,
                label,
            ),
        decreases events@.len() - n,
    {
        let event: ReconstructionEvent = events[n];
        let ghost mine = events@.take(n as int).filter(is_from(id));
        proof {
            stats::lemma_filter_next(events@, n as int, is_from(id));
            lemma_block_source_stats_next(mine, event, events@, id, label);
        }
        if event.source == id {
            let first: u64 = match times.get(&event.slot) {
                Some(at) => *at,
                None => event.reconstructable_at,
            };
            proof {
                lemma_has_fastest(events@, n as int);
            }
            stats.note(&event, event.reconstructable_at.saturating_sub(first));
        }
        n = n + 1;
    }
    assert(events@.take(n as int) =~= events@);
    stats
}

/// A slot that was reconstructed has a fastest source.
proof fn lemma_has_fastest(events: Seq<ReconstructionEvent>, at: int)
    requires
        0 <= at < events.len(),
    ensures
        fastest(events, events[at].slot) is Some,
    decreases events.len(),
{
    if at < events.len() - 1 {
        lemma_has_fastest(events.drop_last(), at);
    }
}

/// The fastest source of a slot is one that had its block, and none had it before.
pub proof fn lemma_fastest_is_least(events: Seq<ReconstructionEvent>, slot: u64)
    ensures
        match fastest(events, slot) {
            Some(at) => {
                &&& exists|i: int|
                    0 <= i < events.len() && (#[trigger] events[i]).slot == slot
                        && events[i].reconstructable_at == at
                &&& forall|i: int|
                    0 <= i < events.len() && (#[trigger] events[i]).slot == slot ==> at
                        <= events[i].reconstructable_at
            },
            None => forall|i: int|
                0 <= i < events.len() ==> (#[trigger] events[i]).slot != slot,
        },
    decreases events.len(),
{
    if events.len() > 0 {
        let rest = events.drop_last();
        lemma_fastest_is_least(rest, slot);
        assert forall|i: int| 0 <= i < rest.len() implies rest[i] == #[trigger] events[i] by {}
        match fastest(rest, slot) {
            Some(at) => {
                let i = choose|i: int|
                    0 <= i < rest.len() && (#[trigger] rest[i]).slot == slot
                        && rest[i].reconstructable_at == at;
                assert(events[i] == rest[i]);
                assert(events[events.len() - 1] == events.last());
            },
            None => {
                assert(events[events.len() - 1] == events.last());
            },
        }
    }
}

/// Tallies the blocks of a run for each source.
pub fn compute_block_stats(events: &[ReconstructionEvent], active: &[(SourceId, String)]) -> (stats:
    BlockStats)
    ensures
        block_stats(stats, events@, active@),
{
    let times: HashMap<u64, u64> = find_fastest(events);
    assert(times@.dom() =~= slots_of(events@)) by {
        assert forall|slot: u64| times@.dom().contains(slot) <==> slots_of(events@).contains(
            slot,
        ) by {
            assert(fastest(events@, slot) is Some <==> times@.contains_key(slot));
        }
    }
    let total_slots: u64 = times.len() as u64;
    let mut sources: Vec<BlockSourceStats> = Vec::new();
    let mut n: usize = 0;
    while n < active.len()
        invariant
            n <= active@.len(),
            sources@.len() == n,
            forall|slot: u64| #[trigger]
                fastest(events@, slot) == (if times@.contains_key(slot) {
                    Some(times@[slot])
                } else {
                    None
                }),
            forall|i: int|
                0 <= i < n ==> (#[trigger] sources@[i])@ == block_source_stats(
                    events@.filter(is_from(active@[i].0)),
                    events@,
                    active@[i].0,
                    active@[i].1@,
                ),
        decreases active@.len() - n,
    {
        sources.push(tally_blocks(events, &times, active[n].0, active[n].1.clone()));
        n = n + 1;
    }
    BlockStats { total_slots, sources }
}

/// Each block of a source is compared with every other block of its slot: what it was behind and
/// the time of the earliest of them make up its own time. So it was behind by nothing just where no
/// source had the block earlier, and it has won just there.
pub proof fn lemma_blocks_are_compared(
    stats: BlockStats,
    events: Seq<ReconstructionEvent>,
    active: Seq<(SourceId, String)>,
    i: int,
    k: int,
)
    requires
        block_stats(stats, events, active),
        0 <= i < active.len(),
        0 <= k < events.filter(|event: ReconstructionEvent| event.source == active[i].0).len(),
    ensures
        ({
            let source = stats.sources@[i]@;
            let mine = events.filter(
                |event: ReconstructionEvent| event.source == active[i].0,
            );
            let behind = source.relative_latency_ns;
            &&& behind.len() == mine.len()
            &&& forall|j: int|
                #![trigger events[j]]
                0 <= j < events.len() && events[j].slot == mine[k].slot ==> events[j].reconstructable_at
                    + behind[k] >= mine[k].reconstructable_at
            &&& exists|j: int|
                #![trigger events[j]]
                0 <= j < events.len() && events[j].slot == mine[k].slot
                    && events[j].reconstructable_at + behind[k] == mine[k].reconstructable_at
            &&& behind[k] == 0 <==> forall|j: int|
                #![trigger events[j]]
                0 <= j < events.len() && events[j].slot == mine[k].slot ==> mine[k].reconstructable_at
                    <= events[j].reconstructable_at
            &&& source.wins == behind.filter(|ns: u64| ns == 0).len()
        }),
{
    let id = active[i].0;
    let from = |event: ReconstructionEvent| event.source == active[i].0;
    assert(from =~= is_from(id));
    let mine = events.filter(from);
    assert(stats.sources@[i]@ == block_source_stats(mine, events, id, active[i].1@));
    events.lemma_filter_contains_rev(from, mine[k]);
    let at = events.index_of(mine[k]);
    lemma_fastest_is_least(events, mine[k].slot);
    assert(events[at].slot == mine[k].slot);
    lemma_wins_are_zeros(mine, events);
}

/// As many blocks have won as were behind by nothing.
proof fn lemma_wins_are_zeros(mine: Seq<ReconstructionEvent>, events: Seq<ReconstructionEvent>)
    ensures
        mine.filter(came_first(events)).len() == mine.map_values(behind(events)).filter(
            |ns: u64| ns == 0,
        ).len(),
    decreases mine.len(),
{
    reveal(Seq::filter);
    if mine.len() > 0 {
        lemma_wins_are_zeros(mine.drop_last(), events);
        assert(mine.map_values(behind(events)).drop_last() =~= mine.drop_last().map_values(
            behind(events),
        ));
    }
}

/// The sum of a number over blocks.
pub open spec fn sum_over(
    blocks: Seq<ReconstructionEvent>,
    part: spec_fn(ReconstructionEvent) -> u64,
) -> int {
    blocks.fold_left(0int, |sofar: int, block: ReconstructionEvent| sofar + part(block))
}

proof fn lemma_total_is_sum(
    blocks: Seq<ReconstructionEvent>,
    part: spec_fn(ReconstructionEvent) -> u64,
)
    requires
        sum_over(blocks, part) <= u64::MAX,
    ensures
        total(blocks.map_values(part)) == sum_over(blocks, part),
        percentiles::sum(blocks.map_values(part)) == sum_over(blocks, part),
    decreases blocks.len(),
{
    reveal_with_fuel(Seq::fold_left, 2);
    if blocks.len() > 0 {
        lemma_total_is_sum(blocks.drop_last(), part);
        assert(blocks.map_values(part).drop_last() =~= blocks.drop_last().map_values(part));
    }
}

/// Every block of a source counts once, with all that was received, recovered and decoded for it;
/// and each took as long to assemble as lies between its first shred and its end.
pub proof fn lemma_blocks_add_up(
    stats: BlockStats,
    events: Seq<ReconstructionEvent>,
    active: Seq<(SourceId, String)>,
    i: int,
)
    requires
        block_stats(stats, events, active),
        0 <= i < active.len(),
    ensures
        ({
            let source = stats.sources@[i]@;
            let mine = events.filter(
                |event: ReconstructionEvent| event.source == active[i].0,
            );
            let recovered = sum_over(mine, |e: ReconstructionEvent| e.recovered_data_shreds as u64);
            let sets = sum_over(mine, |e: ReconstructionEvent| e.fec_sets_recovered as u64);
            let received = sum_over(mine, |e: ReconstructionEvent| e.received_shreds as u64);
            let expected = sum_over(mine, |e: ReconstructionEvent| e.expected_data_shreds as u64);
            let entries = sum_over(mine, |e: ReconstructionEvent| e.entries);
            let transactions = sum_over(mine, |e: ReconstructionEvent| e.transactions);
            &&& stats.sources@.len() == active.len()
            &&& source.id == active[i].0
            &&& source.name == active[i].1@
            &&& source.completed_slots == mine.len()
            &&& recovered <= u64::MAX ==> source.recovered_data_shreds == recovered
            &&& sets <= u64::MAX ==> source.fec_sets_recovered == sets
            &&& received <= u64::MAX ==> source.received_shreds == received
            &&& expected <= u64::MAX ==> source.expected_data_shreds == expected
            &&& entries <= u64::MAX ==> source.entries == entries
            &&& transactions <= u64::MAX ==> source.transactions == transactions
            &&& source.assembly_latency_ns.len() == mine.len()
            &&& source.reconstruction_cpu_ns.len() == mine.len()
            &&& forall|k: int|
                #![trigger mine[k]]
                0 <= k < mine.len() ==> {
                    &&& source.reconstruction_cpu_ns[k] == mine[k].reconstruction_cpu_ns
                    &&& mine[k].first_source_shred_at <= mine[k].reconstructable_at
                        ==> mine[k].first_source_shred_at + source.assembly_latency_ns[k]
                        == mine[k].reconstructable_at
                }
        }),
        stats.total_slots == events.map_values(|event: ReconstructionEvent| event.slot).to_set().len(),
{
    let id = active[i].0;
    let from = |event: ReconstructionEvent| event.source == active[i].0;
    assert(from =~= is_from(id));
    let mine = events.filter(from);
    assert(stats.sources@[i]@ == block_source_stats(mine, events, id, active[i].1@));
    if sum_over(mine, |e: ReconstructionEvent| e.recovered_data_shreds as u64) <= u64::MAX {
        lemma_total_is_sum(mine, |e: ReconstructionEvent| e.recovered_data_shreds as u64);
    }
    if sum_over(mine, |e: ReconstructionEvent| e.fec_sets_recovered as u64) <= u64::MAX {
        lemma_total_is_sum(mine, |e: ReconstructionEvent| e.fec_sets_recovered as u64);
    }
    if sum_over(mine, |e: ReconstructionEvent| e.received_shreds as u64) <= u64::MAX {
        lemma_total_is_sum(mine, |e: ReconstructionEvent| e.received_shreds as u64);
    }
    if sum_over(mine, |e: ReconstructionEvent| e.expected_data_shreds as u64) <= u64::MAX {
        lemma_total_is_sum(mine, |e: ReconstructionEvent| e.expected_data_shreds as u64);
    }
    if sum_over(mine, |e: ReconstructionEvent| e.entries) <= u64::MAX {
        lemma_total_is_sum(mine, |e: ReconstructionEvent| e.entries);
    }
    if sum_over(mine, |e: ReconstructionEvent| e.transactions) <= u64::MAX {
        lemma_total_is_sum(mine, |e: ReconstructionEvent| e.transactions);
    }
    let slots = events.map_values(|event: ReconstructionEvent| event.slot);
    assert(slots_of(events) =~= slots.to_set()) by {
        assert forall|slot: u64| slots_of(events).contains(slot) <==> slots.contains(slot) by {
            lemma_fastest_is_least(events, slot);
            if slots_of(events).contains(slot) {
                let j = choose|j: int|
                    0 <= j < events.len() && (#[trigger] events[j]).slot == slot
                        && events[j].reconstructable_at == fastest(events, slot)->0;
                assert(slots[j] == slot);
            }
            if slots.contains(slot) {
                let j = choose|j: int| 0 <= j < slots.len() && slots[j] == slot;
                assert(events[j].slot == slot);
            }
        }
    }
}

} // verus!
