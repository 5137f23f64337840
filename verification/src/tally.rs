//! What the statistics of a run say of its sources, told by the arrivals that were recorded.

use vstd::prelude::*;

use crate::blocks;
use crate::keys;
use crate::registry::{self, ReconstructionEvent, ShredRecordView, SlotRecordView, SourceId};
use crate::stats::{self, BenchmarkStats, EntrySourceStats, GrpcOverheadStats, SourceStats};

verus! {

/// Whether one of the arrivals is from a source.
pub open spec fn came_from(arrivals: Seq<(SourceId, u64)>, source: SourceId) -> bool {
    exists|i: int| 0 <= i < arrivals.len() && (#[trigger] arrivals[i]).0 == source
}

/// Whether an arrival from a source is there that is not later than any other.
pub open spec fn came_first_from(arrivals: Seq<(SourceId, u64)>, source: SourceId) -> bool {
    exists|i: int|
        0 <= i < arrivals.len() && (#[trigger] arrivals[i]).0 == source && is_earliest(
            arrivals,
            arrivals[i].1,
        )
}

/// Whether no arrival is before a time.
pub open spec fn is_earliest(arrivals: Seq<(SourceId, u64)>, at: u64) -> bool {
    forall|j: int| #![trigger arrivals[j]] 0 <= j < arrivals.len() ==> at <= arrivals[j].1
}

/// Whether no arrival from a source is before a time.
pub open spec fn is_earliest_from(
    arrivals: Seq<(SourceId, u64)>,
    source: SourceId,
    at: u64,
) -> bool {
    forall|j: int|
        #![trigger arrivals[j]]
        0 <= j < arrivals.len() && arrivals[j].0 == source ==> at <= arrivals[j].1
}

/// Whether `ns` lie between the earliest arrival of all and the earliest from a source.
pub open spec fn is_behind(arrivals: Seq<(SourceId, u64)>, source: SourceId, ns: u64) -> bool {
    exists|first: int, mine: int|
        {
            &&& 0 <= first < arrivals.len()
            &&& 0 <= mine < arrivals.len()
            &&& (#[trigger] arrivals[mine]).0 == source
            &&& (#[trigger] arrivals[first]).1 + ns == arrivals[mine].1
            &&& is_earliest(arrivals, arrivals[first].1)
            &&& is_earliest_from(arrivals, source, arrivals[mine].1)
        }
}

/// Lists are filtered alike by what is alike on their elements.
proof fn lemma_same_filter<A>(list: Seq<A>, one: spec_fn(A) -> bool, other: spec_fn(A) -> bool)
    requires
        forall|i: int| #![trigger list[i]] 0 <= i < list.len() ==> one(list[i]) == other(list[i]),
    ensures
        list.filter(one) == list.filter(other),
    decreases list.len(),
{
    reveal(Seq::filter);
    if list.len() > 0 {
        let rest = list.drop_last();
        assert forall|i: int| #![trigger rest[i]] 0 <= i < rest.len() implies one(rest[i]) == other(
            rest[i],
        ) by {
            assert(rest[i] == list[i]);
        }
        lemma_same_filter(rest, one, other);
        assert(list[list.len() - 1] == list.last());
    }
}

/// The arrivals from a source are some of the arrivals, and none from it is left out.
proof fn lemma_arrivals_from(arrivals: Seq<(SourceId, u64)>, source: SourceId)
    ensures
        ({
            let mine = stats::arrivals_from(arrivals, source);
            &&& forall|k: int|
                #![trigger mine[k]]
                0 <= k < mine.len() ==> mine[k].0 == source && exists|i: int|
                    0 <= i < arrivals.len() && #[trigger] arrivals[i] == mine[k]
            &&& forall|i: int|
                #![trigger arrivals[i]]
                0 <= i < arrivals.len() && arrivals[i].0 == source ==> exists|k: int|
                    0 <= k < mine.len() && #[trigger] mine[k] == arrivals[i]
        }),
    decreases arrivals.len(),
{
    reveal(Seq::filter);
    if arrivals.len() > 0 {
        let rest = arrivals.drop_last();
        lemma_arrivals_from(rest, source);
        let mine = stats::arrivals_from(arrivals, source);
        let fewer = stats::arrivals_from(rest, source);
        let last = arrivals.last();
        assert(arrivals[arrivals.len() - 1] == last);
        assert(mine == if last.0 == source {
            fewer.push(last)
        } else {
            fewer
        });
        assert forall|k: int|
            #![trigger mine[k]]
            0 <= k < mine.len() implies mine[k].0 == source && exists|i: int|
            0 <= i < arrivals.len() && #[trigger] arrivals[i] == mine[k] by {
            if k < fewer.len() {
                assert(fewer[k] == mine[k]);
                let i = choose|i: int| 0 <= i < rest.len() && #[trigger] rest[i] == fewer[k];
                assert(arrivals[i] == mine[k]);
            } else {
                assert(arrivals[arrivals.len() - 1] == mine[k]);
            }
        }
        assert forall|i: int|
            #![trigger arrivals[i]]
            0 <= i < arrivals.len() && arrivals[i].0 == source implies exists|k: int|
            0 <= k < mine.len() && #[trigger] mine[k] == arrivals[i] by {
            if i < rest.len() {
                assert(rest[i] == arrivals[i]);
                let k = choose|k: int| 0 <= k < fewer.len() && #[trigger] fewer[k] == rest[i];
                assert(mine[k] == arrivals[i]);
            } else {
                assert(mine[mine.len() - 1] == last);
            }
        }
    }
}

/// What a record says of a source.
pub(crate) proof fn lemma_record(record: ShredRecordView, source: SourceId)
    requires
        record.wf(),
    ensures
        stats::heard(record, source) == came_from(record.arrivals, source),
        stats::heard(record, source) ==> is_behind(
            record.arrivals,
            source,
            stats::delta(record, source),
        ),
        (stats::heard(record, source) && stats::delta(record, source) == 0) == came_first_from(
            record.arrivals,
            source,
        ),
{
    let arrivals = record.arrivals;
    let mine = stats::arrivals_from(arrivals, source);
    lemma_arrivals_from(arrivals, source);
    if mine.len() > 0 {
        let i = choose|i: int| 0 <= i < arrivals.len() && #[trigger] arrivals[i] == mine[0];
        assert(arrivals[i].0 == source);
        stats::lemma_earliest_is_least(mine);
        stats::lemma_earliest_is_least(arrivals);
        stats::lemma_delta_is_exact(record, source);
        let k = choose|k: int|
            0 <= k < mine.len() && (#[trigger] mine[k]).1 == stats::earliest(mine);
        let a = choose|a: int| 0 <= a < arrivals.len() && #[trigger] arrivals[a] == mine[k];
        let b = choose|b: int|
            0 <= b < arrivals.len() && (#[trigger] arrivals[b]).1 == stats::earliest(arrivals);
        assert(is_earliest(arrivals, arrivals[b].1));
        assert forall|j: int|
            #![trigger arrivals[j]]
            0 <= j < arrivals.len() && arrivals[j].0 == source implies arrivals[a].1
            <= arrivals[j].1 by {
            let k = choose|k: int| 0 <= k < mine.len() && #[trigger] mine[k] == arrivals[j];
            assert(stats::earliest(mine) <= mine[k].1);
        }
        assert(arrivals[b].1 + stats::delta(record, source) == arrivals[a].1);
        if stats::delta(record, source) == 0 {
            assert(is_earliest(arrivals, arrivals[a].1));
        }
        if came_first_from(arrivals, source) {
            let i = choose|i: int|
                0 <= i < arrivals.len() && (#[trigger] arrivals[i]).0 == source && is_earliest(
                    arrivals,
                    arrivals[i].1,
                );
            assert(arrivals[i].1 <= arrivals[b].1);
            assert(arrivals[a].1 <= arrivals[i].1);
        }
    } else {
        assert(!came_from(arrivals, source));
        if came_first_from(arrivals, source) {
            let i = choose|i: int|
                0 <= i < arrivals.len() && (#[trigger] arrivals[i]).0 == source && is_earliest(
                    arrivals,
                    arrivals[i].1,
                );
            assert(came_from(arrivals, source));
        }
    }
}

/// The shreds that came from a source.
pub open spec fn had_by(shreds: Map<(u64, u32, bool), ShredRecordView>, source: SourceId) -> spec_fn(
    (u64, u32, bool),
) -> bool {
    |key: (u64, u32, bool)| came_from(shreds[key].arrivals, source)
}

/// Every source is told what it delivered: how many of the shreds came from it, how many of those
/// carry data and how many carry parity, how many never came from it, and how many came from no
/// other source earlier; and of each that came, how long after the earliest arrival of all its own
/// earliest was.
pub proof fn lemma_shreds_are_tallied(
    sources: Seq<SourceStats>,
    active: Seq<(SourceId, String)>,
    list: Seq<(u64, u32, bool)>,
    shreds: Map<(u64, u32, bool), ShredRecordView>,
    i: int,
)
    requires
        stats::shred_stats(sources, active, list, shreds),
        keys::lists_keys(list, shreds),
        forall|key: (u64, u32, bool)| #[trigger] shreds.contains_key(key) ==> shreds[key].wf(),
        0 <= i < active.len(),
    ensures
        ({
            let source = sources[i]@;
            let id = active[i].0;
            let had = list.filter(had_by(shreds, id));
            &&& sources.len() == active.len()
            &&& source.id == id
            &&& source.name == active[i].1@
            &&& source.received == had.len()
            &&& source.data_shreds == had.filter(|key: (u64, u32, bool)| key.2).len()
            &&& source.code_shreds == had.filter(|key: (u64, u32, bool)| !key.2).len()
            &&& source.missed == list.filter(
                |key: (u64, u32, bool)| !came_from(shreds[key].arrivals, id),
            ).len()
            &&& source.wins == list.filter(
                |key: (u64, u32, bool)| came_first_from(shreds[key].arrivals, id),
            ).len()
            &&& source.latency_ns.len() == had.len()
            &&& forall|n: int|
                #![trigger had[n]]
                0 <= n < had.len() ==> is_behind(
                    shreds[had[n]].arrivals,
                    id,
                    source.latency_ns[n],
                )
        }),
{
    let id = active[i].0;
    let source = sources[i]@;
    assert(source == stats::source_stats(list, shreds, id, active[i].1@));
    assert forall|n: int| 0 <= n < list.len() implies shreds[#[trigger] list[n]].wf() by {
        assert(list.contains(list[n]));
    }
    let data = |key: (u64, u32, bool)| key.2;
    let code = |key: (u64, u32, bool)| !key.2;
    let lacked = |key: (u64, u32, bool)| !came_from(shreds[key].arrivals, id);
    let first = |key: (u64, u32, bool)| came_first_from(shreds[key].arrivals, id);
    assert forall|n: int| #![trigger list[n]] 0 <= n < list.len() implies stats::delivered(
        shreds,
        id,
    )(list[n]) == had_by(shreds, id)(list[n]) && stats::lacking(shreds, id)(list[n]) == lacked(
        list[n],
    ) && stats::won(shreds, id)(list[n]) == first(list[n]) by {
        lemma_record(shreds[list[n]], id);
    }
    lemma_same_filter(list, stats::delivered(shreds, id), had_by(shreds, id));
    lemma_same_filter(list, stats::lacking(shreds, id), lacked);
    lemma_same_filter(list, stats::won(shreds, id), first);
    lemma_filter_twice(list, stats::delivered(shreds, id), data);
    lemma_filter_twice(list, stats::delivered(shreds, id), code);
    assert(stats::delivered_kind(shreds, id, true) =~= (|key: (u64, u32, bool)|
        stats::delivered(shreds, id)(key) && data(key)));
    assert(stats::delivered_kind(shreds, id, false) =~= (|key: (u64, u32, bool)|
        stats::delivered(shreds, id)(key) && code(key)));
    let had = list.filter(had_by(shreds, id));
    assert forall|n: int| #![trigger had[n]] 0 <= n < had.len() implies is_behind(
        shreds[had[n]].arrivals,
        id,
        source.latency_ns[n],
    ) by {
        list.lemma_filter_contains_rev(had_by(shreds, id), had[n]);
        let m = choose|m: int| 0 <= m < list.len() && list[m] == had[n];
        lemma_record(shreds[list[m]], id);
        assert(had_by(shreds, id)(had[n])) by {
            broadcast use vstd::seq_lib::group_filter_ensures;

        }
    }
}

/// To filter twice is to filter by both.
proof fn lemma_filter_twice<A>(list: Seq<A>, one: spec_fn(A) -> bool, other: spec_fn(A) -> bool)
    ensures
        list.filter(one).filter(other) == list.filter(|a: A| one(a) && other(a)),
    decreases list.len(),
{
    reveal(Seq::filter);
    if list.len() > 0 {
        let rest = list.drop_last();
        lemma_filter_twice(rest, one, other);
        if one(list.last()) {
            let fewer = rest.filter(one);
            assert(fewer.push(list.last()).drop_last() =~= fewer);
        }
    }
}

/// The slots that a source gave a sign of.
pub open spec fn signed_by(slots: Map<u64, SlotRecordView>, source: SourceId) -> spec_fn(
    u64,
) -> bool {
    |slot: u64| came_from(slots[slot].entry_arrivals, source)
}

/// Every source that gives signs of slots is told of how many it gave one, and how long after the
/// first shred of each the sign came; none where it came before.
pub proof fn lemma_signs_are_tallied(
    sources: Seq<EntrySourceStats>,
    active: Seq<(SourceId, String)>,
    list: Seq<u64>,
    slots: Map<u64, SlotRecordView>,
    i: int,
)
    requires
        stats::entry_stats(sources, active, list, slots),
        keys::lists_keys(list, slots),
        forall|slot: u64| #[trigger] slots.contains_key(slot) ==> slots[slot].wf(),
        0 <= i < active.len(),
    ensures
        ({
            let source = sources[i]@;
            let id = active[i].0;
            let signed = list.filter(signed_by(slots, id));
            &&& sources.len() == active.len()
            &&& source.id == id
            &&& source.name == active[i].1@
            &&& source.slots_seen == signed.len()
            &&& source.latency_ns.len() == signed.len()
            &&& forall|n: int, k: int|
                #![trigger signed[n], slots[signed[n]].entry_arrivals[k]]
                0 <= n < signed.len() && 0 <= k < slots[signed[n]].entry_arrivals.len()
                    && slots[signed[n]].entry_arrivals[k].0 == id ==> {
                    let first = slots[signed[n]].first_shred_at;
                    let at = slots[signed[n]].entry_arrivals[k].1;
                    &&& first <= at ==> first + source.latency_ns[n] == at
                    &&& at < first ==> source.latency_ns[n] == 0
                }
        }),
{
    let id = active[i].0;
    let source = sources[i]@;
    assert(source == stats::entry_source_stats(list, slots, id, active[i].1@));
    assert forall|n: int| #![trigger list[n]] 0 <= n < list.len() implies stats::signalled(
        slots,
        id,
    )(list[n]) == signed_by(slots, id)(list[n]) by {
        let arrivals = slots[list[n]].entry_arrivals;
        if came_from(arrivals, id) {
            let k = choose|k: int| 0 <= k < arrivals.len() && (#[trigger] arrivals[k]).0 == id;
            registry::lemma_first_arrival(arrivals, id, k);
        }
        if registry::arrival_of(arrivals, id) is Some {
            let k = registry::arrival_of(arrivals, id)->0;
            assert(registry::is_arrival_of(arrivals, id, k));
            assert(arrivals[k].0 == id);
        }
    }
    lemma_same_filter(list, stats::signalled(slots, id), signed_by(slots, id));
    let signed = list.filter(signed_by(slots, id));
    assert forall|n: int, k: int|
        #![trigger signed[n], slots[signed[n]].entry_arrivals[k]]
        0 <= n < signed.len() && 0 <= k < slots[signed[n]].entry_arrivals.len()
            && slots[signed[n]].entry_arrivals[k].0 == id implies {
        let first = slots[signed[n]].first_shred_at;
        let at = slots[signed[n]].entry_arrivals[k].1;
        &&& first <= at ==> first + source.latency_ns[n] == at
        &&& at < first ==> source.latency_ns[n] == 0
    } by {
        let arrivals = slots[signed[n]].entry_arrivals;
        list.lemma_filter_contains_rev(signed_by(slots, id), signed[n]);
        assert(slots.contains_key(signed[n]));
        assert(slots[signed[n]].wf());
        registry::lemma_first_arrival(arrivals, id, k);
        let p = registry::arrival_of(arrivals, id)->0;
        assert(registry::is_arrival_of(arrivals, id, p));
        if p < k {
            assert(arrivals[p].0 != arrivals[k].0);
        }
        assert(p == k);
    }
}

/// The sources of which account updates are recorded.
pub open spec fn updated(latencies: Map<u64, Seq<u64>>) -> spec_fn((SourceId, String)) -> bool {
    |source: (SourceId, String)| latencies.contains_key(registry::source_code(source.0))
}

/// Every source of which account updates are recorded is told all of them, in their order; other
/// sources are left out.
pub proof fn lemma_updates_are_tallied(
    overhead: Seq<GrpcOverheadStats>,
    active: Seq<(SourceId, String)>,
    latencies: Map<u64, Seq<u64>>,
)
    requires
        stats::grpc_stats(overhead, active, latencies, active.len() as int),
    ensures
        ({
            let told = active.filter(updated(latencies));
            &&& overhead.len() == told.len()
            &&& forall|i: int|
                #![trigger overhead[i]]
                0 <= i < overhead.len() ==> {
                    let samples = latencies[registry::source_code(told[i].0)];
                    &&& overhead[i].id == told[i].0
                    &&& overhead[i].name@ == told[i].1@
                    &&& overhead[i].samples == samples.len()
                    &&& overhead[i].latency_ns@ == samples
                }
        }),
{
    lemma_places(active, latencies, active.len() as int);
    assert(active.take(active.len() as int) =~= active);
}

proof fn lemma_places(active: Seq<(SourceId, String)>, latencies: Map<u64, Seq<u64>>, count: int)
    requires
        0 <= count <= active.len(),
    ensures
        ({
            let places = stats::with_latencies(active, latencies, count);
            let told = active.take(count).filter(updated(latencies));
            &&& places.len() == told.len()
            &&& forall|i: int|
                #![trigger told[i]]
                0 <= i < places.len() ==> told[i] == active[places[i]]
        }),
    decreases count,
{
    reveal(Seq::filter);
    if count == 0 {
        assert(active.take(0).filter(updated(latencies)).len() == 0);
    } else {
        lemma_places(active, latencies, count - 1);
        stats::lemma_filter_next(active, count - 1, updated(latencies));
    }
}

/// Where shreds were recorded, and none of the very last slot number, the range of slots is from
/// the least to the greatest slot of a shred. Where none was recorded it is from zero to zero.
pub proof fn lemma_slot_range_is_tight(
    shreds: Map<(u64, u32, bool), ShredRecordView>,
    min_slot: u64,
    max_slot: u64,
    key: (u64, u32, bool),
)
    requires
        stats::slot_range(shreds, min_slot, max_slot),
        forall|key: (u64, u32, bool)| #[trigger] shreds.contains_key(key) ==> key.0 < u64::MAX,
    ensures
        shreds.contains_key(key) ==> {
            &&& min_slot <= key.0 <= max_slot
            &&& exists|least: (u64, u32, bool)| #[trigger]
                shreds.contains_key(least) && least.0 == min_slot
            &&& exists|most: (u64, u32, bool)| #[trigger]
                shreds.contains_key(most) && most.0 == max_slot
        },
        (forall|key: (u64, u32, bool)| !#[trigger] shreds.contains_key(key)) ==> min_slot == 0
            && max_slot == 0,
{
    if shreds.contains_key(key) {
        if max_slot == 0 {
            assert(key.0 == max_slot);
        }
        if forall|k: (u64, u32, bool)| #[trigger] shreds.contains_key(k) ==> k.0 == u64::MAX {
            assert(key.0 == u64::MAX);
        }
    }
}

/// The statistics of a run are of all its sources, in their order: those that deliver shreds are
/// told their shreds and their blocks, the others the slots that they gave signs of. Every shred
/// that was recorded was received from a source or missed by it, and no source has more blocks than
/// were reconstructed.
pub proof fn lemma_run_is_summed_up(
    stats: BenchmarkStats,
    view: registry::RegistryView,
    reconstructed: Seq<ReconstructionEvent>,
    active_shred_sources: Seq<(SourceId, String)>,
    active_entry_sources: Seq<(SourceId, String)>,
    duration_ns: u64,
    i: int,
)
    requires
        stats::amounts_to(
            stats,
            view,
            reconstructed,
            active_shred_sources,
            active_entry_sources,
            duration_ns,
        ),
        view.wf(),
    ensures
        stats.duration_ns == duration_ns,
        stats.total_unique_shreds == view.shreds.dom().len(),
        stats.slot_stats.total_slots == view.slots.dom().len(),
        stats.sources@.len() == active_shred_sources.len(),
        stats.block_stats.sources@.len() == active_shred_sources.len(),
        stats.slot_stats.entry_sources@.len() == active_entry_sources.len(),
        stats.grpc_overhead@.len() == active_entry_sources.filter(
            updated(view.grpc_latencies),
        ).len(),
        0 <= i < active_shred_sources.len() ==> {
            let source = stats.sources@[i];
            let blocks = stats.block_stats.sources@[i];
            &&& source.id == active_shred_sources[i].0
            &&& source.name@ == active_shred_sources[i].1@
            &&& source.received + source.missed == stats.total_unique_shreds
            &&& source.data_shreds + source.code_shreds == source.received
            &&& source.wins <= source.received
            &&& source.latency_ns@.len() == source.received
            &&& blocks.id == active_shred_sources[i].0
            &&& blocks.name@ == active_shred_sources[i].1@
            &&& blocks.completed_slots <= reconstructed.len()
        },
        0 <= i < active_entry_sources.len() ==> {
            let source = stats.slot_stats.entry_sources@[i];
            &&& source.id == active_entry_sources[i].0
            &&& source.name@ == active_entry_sources[i].1@
            &&& source.slots_seen <= stats.slot_stats.total_slots
            &&& source.latency_ns@.len() == source.slots_seen
        },
{
    let list = choose|list: Seq<(u64, u32, bool)>|
        keys::lists_keys(list, view.shreds) && #[trigger] stats::shred_stats(
            stats.sources@,
            active_shred_sources,
            list,
            view.shreds,
        );
    lemma_listed(list, view.shreds);
    if 0 <= i < active_shred_sources.len() {
        let (id, name) = active_shred_sources[i];
        assert(stats.sources@[i]@ == stats::source_stats(list, view.shreds, id, name@));
        stats::lemma_received_or_missed(list, view.shreds, id, name@);
        let mine = reconstructed.filter(blocks::is_from(id));
        assert(stats.block_stats.sources@[i]@ == blocks::block_source_stats(
            mine,
            reconstructed,
            id,
            name@,
        ));
        reconstructed.lemma_filter_len(blocks::is_from(id));
    }
    let slots = choose|list: Seq<u64>|
        keys::lists_keys(list, view.slots) && #[trigger] stats::entry_stats(
            stats.slot_stats.entry_sources@,
            active_entry_sources,
            list,
            view.slots,
        );
    lemma_listed(slots, view.slots);
    if 0 <= i < active_entry_sources.len() {
        let (id, name) = active_entry_sources[i];
        assert(stats.slot_stats.entry_sources@[i]@ == stats::entry_source_stats(
            slots,
            view.slots,
            id,
            name@,
        ));
        slots.lemma_filter_len(stats::signalled(view.slots, id));
    }
    lemma_updates_are_tallied(
        stats.grpc_overhead@,
        active_entry_sources,
        view.grpc_latencies,
    );
}

/// A list that names each key once is as long as there are keys.
proof fn lemma_listed<K, V>(list: Seq<K>, map: Map<K, V>)
    requires
        keys::lists_keys(list, map),
    ensures
        list.len() == map.dom().len(),
{
    assert(list.to_set() =~= map.dom());
    list.unique_seq_to_set();
}

} // verus!
