//! The entries of the log of a run: one for each shred.

use vstd::prelude::*;

use crate::order;
use crate::registry::{self, ShredRecord, SourceId};
use crate::shred::ShredType;
use crate::stats;
use crate::tally;
use crate::text;

verus! {

/// Where a source stands in a list of names.
pub open spec fn is_named_at(names: Seq<(SourceId, String)>, source: SourceId, at: int) -> bool {
    &&& 0 <= at < names.len()
    &&& names[at].0 == source
    &&& forall|i: int| 0 <= i < at ==> (#[trigger] names[i]).0 != source
}

/// What a source is called: its name, or else its number.
pub open spec fn label_text(names: Seq<(SourceId, String)>, source: SourceId) -> Seq<char> {
    if exists|at: int| is_named_at(names, source, at) {
        names[choose|at: int| is_named_at(names, source, at)].1@
    } else {
        "source_"@ + text::decimal(registry::source_number(source) as nat)
    }
}

/// The sources of arrivals, each once, in the order in which they came.
pub open spec fn sources_of(arrivals: Seq<(SourceId, u64)>) -> Seq<SourceId>
    decreases arrivals.len(),
{
    if arrivals.len() == 0 {
        Seq::empty()
    } else {
        let before = sources_of(arrivals.drop_last());
        if before.contains(arrivals.last().0) {
            before
        } else {
            before.push(arrivals.last().0)
        }
    }
}

/// How long after its first sight a shred came from each of its sources.
pub open spec fn deltas_of(record: registry::ShredRecordView) -> Seq<u64> {
    sources_of(record.arrivals).map_values(|source: SourceId| stats::delta(record, source))
}

/// When a shred came from a source.
#[derive(Debug)]
pub struct ArrivalEntry {
    pub source: String,
    pub delta_ns: u64,
}

/// What the log says of a shred.
#[derive(Debug)]
pub struct ShredLogEntry {
    pub slot: u64,
    pub index: u32,
    pub shred_type: String,
    pub first_source: String,
    pub first_seen_ns: u64,
    /// The earliest arrival from each source, the fastest one first.
    pub arrivals: Vec<ArrivalEntry>,
}

/// `arrivals` is the earliest arrival from each source of a shred, the fastest one first.
pub open spec fn lists_arrivals(
    arrivals: Seq<ArrivalEntry>,
    record: registry::ShredRecordView,
    names: Seq<(SourceId, String)>,
) -> bool {
    exists|order: Seq<usize>|
        {
            &&& #[trigger] order::is_order(deltas_of(record), order)
            &&& arrivals.len() == order.len()
            &&& forall|i: int|
                #![trigger arrivals[i]]
                0 <= i < arrivals.len() ==> {
                    &&& arrivals[i].source@ == label_text(
                        names,
                        sources_of(record.arrivals)[order[i] as int],
                    )
                    &&& arrivals[i].delta_ns == deltas_of(record)[order[i] as int]
                }
        }
}

/// What a source is called.
pub fn label(names: &[(SourceId, String)], source: SourceId) -> (called: String)
    ensures
        called@ == label_text(names@, source),
{
    let mut n: usize = 0;
    while n < names.len()
        invariant
            n <= names@.len(),
            forall|i: int| 0 <= i < n ==> (#[trigger] names@[i]).0 != source,
        decreases names@.len() - n,
    {
        if names[n].0 == source {
            proof {
                assert(is_named_at(names@, source, n as int));
                let at = choose|at: int| is_named_at(names@, source, at);
                assert(names@[at].0 == source && names@[n as int].0 == source);
                assert(at == n);
            }
            return names[n].1.clone();
        }
        n = n + 1;
    }
    let mut called: String = String::from_str("source_");
    text::push_decimal(&mut called, source.number() as u128);
    called
}

/// The sources of arrivals, each once.
fn list_sources(arrivals: &Vec<(SourceId, u64)>) -> (sources: Vec<SourceId>)
    ensures
        sources@ == sources_of(arrivals@),
{
    let mut sources: Vec<SourceId> = Vec::new();
    let mut n: usize = 0;
    while n < arrivals.len()
        invariant
            n <= arrivals@.len(),
            sources@ == sources_of(arrivals@.take(n as int)),
        decreases arrivals@.len() - n,
    {
        let source: SourceId = arrivals[n].0;
        let mut known: bool = false;
        let mut i: usize = 0;
        while i < sources.len()
            invariant
                i <= sources@.len(),
                known <==> exists|j: int| 0 <= j < i && #[trigger] sources@[j] == source,
            decreases sources@.len() - i,
        {
            if sources[i] == source {
                known = true;
            }
            i = i + 1;
        }
        proof {
            assert(arrivals@.take(n + 1).drop_last() =~= arrivals@.take(n as int));
            assert(known <==> sources@.contains(source));
        }
        if !known {
            sources.push(source);
        }
        n = n + 1;
    }
    assert(arrivals@.take(n as int) =~= arrivals@);
    sources
}

/// Every source of arrivals has one of them.
proof fn lemma_source_is_heard(arrivals: Seq<(SourceId, u64)>, at: int)
    requires
        0 <= at < sources_of(arrivals).len(),
    ensures
        stats::arrivals_from(arrivals, sources_of(arrivals)[at]).len() > 0,
    decreases arrivals.len(),
{
    reveal(Seq::filter);
    let before = arrivals.drop_last();
    if arrivals.len() > 0 && at < sources_of(before).len() {
        lemma_source_is_heard(before, at);
    }
}

/// `entry` says what was recorded of a shred.
pub open spec fn is_log_entry(
    entry: ShredLogEntry,
    slot: u64,
    index: u32,
    shred_type: ShredType,
    record: registry::ShredRecordView,
    names: Seq<(SourceId, String)>,
) -> bool {
    &&& entry.slot == slot
    &&& entry.index == index
    &&& entry.shred_type@ == shred_type.label_text()
    &&& entry.first_source@ == label_text(names, record.first_source)
    &&& entry.first_seen_ns == record.first_seen
    &&& lists_arrivals(entry.arrivals@, record, names)
}

/// What the log says of a shred.
pub fn log_entry(
    slot: u64,
    index: u32,
    shred_type: ShredType,
    record: &ShredRecord,
    names: &[(SourceId, String)],
) -> (entry: ShredLogEntry)
    ensures
        entry.slot == slot,
        entry.index == index,
        entry.shred_type@ == shred_type.label_text(),
        entry.first_source@ == label_text(names@, record.first_source),
        entry.first_seen_ns == record.first_seen,
        lists_arrivals(entry.arrivals@, record@, names@),
        is_log_entry(entry, slot, index, shred_type, record@, names@),
{
    let sources: Vec<SourceId> = list_sources(&record.arrivals);
    let mut deltas: Vec<u64> = Vec::new();
    let mut n: usize = 0;
    while n < sources.len()
        invariant
            n <= sources@.len(),
            sources@ == sources_of(record@.arrivals),
            deltas@ == deltas_of(record@).take(n as int),
        decreases sources@.len() - n,
    {
        let (count, first): (usize, u64) = stats::look_for(&record.arrivals, sources[n]);
        proof {
            lemma_source_is_heard(record@.arrivals, n as int);
        }
        deltas.push(first.saturating_sub(record.first_seen));
        n = n + 1;
    }
    assert(deltas@ =~= deltas_of(record@));
    let order: Vec<usize> = order::order_by(&deltas);
    let mut arrivals: Vec<ArrivalEntry> = Vec::new();
    let mut k: usize = 0;
    while k < order.len()
        invariant
            k <= order@.len(),
            arrivals@.len() == k,
            sources@ == sources_of(record@.arrivals),
            deltas@ == deltas_of(record@),
            order::is_order(deltas@, order@),
            forall|i: int|
                #![trigger arrivals@[i]]
                0 <= i < k ==> {
                    &&& arrivals@[i].source@ == label_text(names@, sources@[order@[i] as int])
                    &&& arrivals@[i].delta_ns == deltas@[order@[i] as int]
                },
        decreases order@.len() - k,
    {
        let at: usize = order[k];
        assert(order@[k as int] < deltas@.len());
        arrivals.push(ArrivalEntry { source: label(names, sources[at]), delta_ns: deltas[at] });
        k = k + 1;
    }
    ShredLogEntry {
        slot,
        index,
        shred_type: String::from_str(shred_type.label()),
        first_source: label(names, record.first_source),
        first_seen_ns: record.first_seen,
        arrivals,
    }
}

/// The sources of arrivals are those that an arrival is from, each once.
proof fn lemma_sources_of(arrivals: Seq<(SourceId, u64)>)
    ensures
        sources_of(arrivals).no_duplicates(),
        forall|source: SourceId| #[trigger]
            sources_of(arrivals).contains(source) <==> tally::came_from(arrivals, source),
    decreases arrivals.len(),
{
    if arrivals.len() > 0 {
        let before = arrivals.drop_last();
        let fewer = sources_of(before);
        let sources = sources_of(arrivals);
        let last = arrivals.last();
        lemma_sources_of(before);
        assert(arrivals[arrivals.len() - 1] == last);
        assert forall|source: SourceId| #[trigger] sources.contains(source) <==> tally::came_from(
            arrivals,
            source,
        ) by {
            if fewer.contains(source) {
                let i = choose|i: int| 0 <= i < before.len() && (#[trigger] before[i]).0 == source;
                assert(arrivals[i].0 == source);
                let k = choose|k: int| 0 <= k < fewer.len() && fewer[k] == source;
                assert(sources[k] == source);
            }
            if sources.contains(source) && !fewer.contains(source) {
                assert(source == last.0);
            }
            if tally::came_from(arrivals, source) {
                let i = choose|i: int|
                    0 <= i < arrivals.len() && (#[trigger] arrivals[i]).0 == source;
                if i < before.len() {
                    assert(before[i].0 == source);
                    assert(tally::came_from(before, source));
                } else if !fewer.contains(source) {
                    assert(sources[sources.len() - 1] == source);
                }
            }
        }
    }
}

/// Whether `arrivals` names `sources`, with how far each was behind, and those are all that
/// delivered a shred.
pub open spec fn names_all(
    arrivals: Seq<ArrivalEntry>,
    sources: Seq<SourceId>,
    record: registry::ShredRecordView,
    names: Seq<(SourceId, String)>,
) -> bool {
    &&& sources.no_duplicates()
    &&& sources.len() == arrivals.len()
    &&& forall|source: SourceId| #[trigger]
        sources.contains(source) <==> tally::came_from(record.arrivals, source)
    &&& forall|i: int|
        #![trigger arrivals[i]]
        0 <= i < arrivals.len() ==> arrivals[i].source@ == label_text(names, sources[i])
            && tally::is_behind(record.arrivals, sources[i], arrivals[i].delta_ns)
}

/// The log says of a shred which one it is, when its earliest arrival was, and from which source;
/// and it names every source that delivered it, once, with how long after the earliest arrival of
/// all its own earliest was, the fastest first.
pub proof fn lemma_log_is_complete(
    entry: ShredLogEntry,
    slot: u64,
    index: u32,
    shred_type: ShredType,
    record: registry::ShredRecordView,
    names: Seq<(SourceId, String)>,
)
    requires
        record.wf(),
        record.arrivals.len() <= usize::MAX,
        is_log_entry(entry, slot, index, shred_type, record, names),
    ensures
        entry.slot == slot,
        entry.index == index,
        entry.shred_type@ == (if shred_type is Data {
            "data"@
        } else {
            "code"@
        }),
        tally::is_earliest(record.arrivals, entry.first_seen_ns),
        exists|first: SourceId| #[trigger]
            record.arrivals.contains((first, entry.first_seen_ns)) && entry.first_source@
                == label_text(names, first),
        forall|i: int, j: int|
            #![trigger entry.arrivals@[i], entry.arrivals@[j]]
            0 <= i < j < entry.arrivals@.len() ==> entry.arrivals@[i].delta_ns
                <= entry.arrivals@[j].delta_ns,
        exists|sources: Seq<SourceId>| #[trigger]
            names_all(entry.arrivals@, sources, record, names),
{
    let arrivals = entry.arrivals@;
    assert(record.arrivals.contains((record.first_source, entry.first_seen_ns)));
    let listed = sources_of(record.arrivals);
    let deltas = deltas_of(record);
    let order = choose|order: Seq<usize>|
        {
            &&& #[trigger] order::is_order(deltas, order)
            &&& arrivals.len() == order.len()
            &&& forall|i: int|
                #![trigger arrivals[i]]
                0 <= i < arrivals.len() ==> {
                    &&& arrivals[i].source@ == label_text(names, listed[order[i] as int])
                    &&& arrivals[i].delta_ns == deltas[order[i] as int]
                }
        };
    lemma_sources_of(record.arrivals);
    lemma_few_sources(record.arrivals);
    order::lemma_order_goes_up(deltas, order);
    let sources = Seq::new(order.len(), |i: int| listed[order[i] as int]);
    assert forall|i: int, j: int|
        0 <= i < sources.len() && 0 <= j < sources.len() && i != j implies sources[i]
        != sources[j] by {
        assert(order[i] != order[j]);
    }
    assert forall|source: SourceId| #[trigger] sources.contains(source) <==> tally::came_from(
        record.arrivals,
        source,
    ) by {
        if sources.contains(source) {
            let i = choose|i: int| 0 <= i < sources.len() && sources[i] == source;
            assert(order[i] < deltas.len());
            assert(listed.contains(source));
        }
        if listed.contains(source) {
            let k = choose|k: int| 0 <= k < listed.len() && listed[k] == source;
            assert(deltas[k] == stats::delta(record, source));
            assert(order.contains(k as usize));
            let i = choose|i: int| 0 <= i < order.len() && order[i] == k as usize;
            assert(sources[i] == source);
        }
    }
    assert forall|i: int|
        #![trigger arrivals[i]]
        0 <= i < arrivals.len() implies arrivals[i].source@ == label_text(names, sources[i])
        && tally::is_behind(record.arrivals, sources[i], arrivals[i].delta_ns) by {
        assert(order[i] < deltas.len());
        assert(listed.contains(listed[order[i] as int]));
        tally::lemma_record(record, sources[i]);
    }
    assert(names_all(arrivals, sources, record, names));
}

proof fn lemma_few_sources(arrivals: Seq<(SourceId, u64)>)
    ensures
        sources_of(arrivals).len() <= arrivals.len(),
    decreases arrivals.len(),
{
    if arrivals.len() > 0 {
        lemma_few_sources(arrivals.drop_last());
    }
}

/// A source is called by the first name that it is given, or else by its number.
pub proof fn lemma_source_is_called(names: Seq<(SourceId, String)>, source: SourceId, at: int)
    ensures
        ({
            &&& 0 <= at < names.len()
            &&& names[at].0 == source
            &&& forall|i: int| #![trigger names[i]] 0 <= i < at ==> names[i].0 != source
        }) ==> label_text(names, source) == names[at].1@,
        (forall|i: int| #![trigger names[i]] 0 <= i < names.len() ==> names[i].0 != source)
            ==> label_text(names, source) == "source_"@ + text::decimal(
            registry::source_number(source) as nat,
        ),
{
    if 0 <= at < names.len() && names[at].0 == source && (forall|i: int|
        #![trigger names[i]]
        0 <= i < at ==> names[i].0 != source) {
        assert(is_named_at(names, source, at));
        let first = choose|at: int| is_named_at(names, source, at);
        assert(names[first].0 == source);
    }
}

} // verus!
