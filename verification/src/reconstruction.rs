//! Following, for each source, the slots that its shreds suffice to reconstruct.

use std::collections::{HashMap, HashSet};

use vstd::prelude::*;

use crate::entries::DecodedBlock;
use crate::fec;
use crate::keys;
use crate::registry::{self, ReconstructionEvent, ShredEvent, SourceId};
use crate::shred::ShredKey;
use crate::slot::{self, SlotAssembly};
use crate::wire::{self, WireShred};

verus! {

broadcast use vstd::std_specs::hash::group_hash_axioms;

/// How many slots behind the newest one are kept.
pub const SLOT_RETENTION: u64 = 128;

/// The oldest slot that is kept once `newest` has been seen.
pub open spec fn oldest_kept(newest: u64) -> u64 {
    if newest >= SLOT_RETENTION {
        (newest - SLOT_RETENTION) as u64
    } else {
        0
    }
}

/// What is known of the slots of one source.
#[verifier::ext_equal]
pub struct SourceView {
    pub newest_slot: u64,
    /// The slots that are not reconstructed yet.
    pub slots: Map<u64, slot::SlotView>,
    /// The slots that have been reconstructed.
    pub completed: Set<u64>,
}

/// The report of a slot that has been reconstructed.
pub open spec fn report(
    source: SourceId,
    slot: u64,
    state: slot::SlotView,
    decoded: DecodedBlock,
) -> ReconstructionEvent {
    ReconstructionEvent {
        source,
        slot,
        reconstructable_at: state.last_received_at,
        first_source_shred_at: state.first_received_at,
        expected_data_shreds: (state.last_data_index->0 + 1) as u32,
        received_shreds: state.received_shreds,
        recovered_data_shreds: state.recovered_data_shreds,
        fec_sets_recovered: state.fec_sets_recovered,
        entries: decoded.entries,
        transactions: decoded.transactions,
        reconstruction_cpu_ns: state.reconstruction_cpu_ns,
    }
}

impl SourceView {
    pub open spec fn empty() -> SourceView {
        SourceView { newest_slot: 0, slots: Map::empty(), completed: Set::empty() }
    }

    /// Every slot is in order, is not among the completed ones, and is one that is kept; and so is
    /// every completed one.
    pub open spec fn wf(self) -> bool {
        &&& forall|slot: u64| #[trigger]
            self.slots.contains_key(slot) ==> {
                &&& self.slots[slot].wf(slot)
                &&& !self.completed.contains(slot)
                &&& oldest_kept(self.newest_slot) <= slot <= self.newest_slot
            }
        &&& forall|slot: u64| #[trigger]
            self.completed.contains(slot) ==> oldest_kept(self.newest_slot) <= slot
                <= self.newest_slot
    }

    /// The source once a shred of `slot` has been seen: without the slots that are too old by then.
    pub open spec fn pruned(self, slot: u64) -> SourceView {
        let newest_slot = if slot > self.newest_slot {
            slot
        } else {
            self.newest_slot
        };
        let kept = keys::from(oldest_kept(newest_slot));
        SourceView {
            newest_slot,
            slots: self.slots.restrict(kept),
            completed: self.completed.intersect(kept),
        }
    }

    /// What is known of a slot of which a shred is received.
    pub open spec fn slot(self, slot: u64, received_at: u64) -> slot::SlotView {
        if self.slots.contains_key(slot) {
            self.slots[slot]
        } else {
            slot::SlotView::empty(received_at)
        }
    }

    /// Whether a shred tells something new: its slot is kept and not completed, and its FEC set
    /// admits it.
    pub open spec fn accepts(self, shred: wire::WireShredView, received_at: u64) -> bool {
        &&& shred.slot >= oldest_kept(self.newest_slot)
        &&& !self.completed.contains(shred.slot)
        &&& slot::fec_set(
            self.slot(shred.slot, received_at).fec_sets,
            shred.fec_set_index,
        ).admits(shred)
    }

    /// What a shred that was received leaves of the source, and what it reports: a slot, where the
    /// shreds of the slot now spell a block. Computing shards took `recovery_ns`, and decoding
    /// `decoding_ns`.
    pub open spec fn after(
        self,
        source: SourceId,
        shred: wire::WireShredView,
        received_at: u64,
        recovery_ns: u64,
        decoding_ns: u64,
    ) -> (SourceView, Option<ReconstructionEvent>) {
        let slot = shred.slot;
        let kept = self.pruned(slot);
        if !kept.accepts(shred, received_at) {
            (kept, None)
        } else {
            match kept.slot(slot, received_at).after(shred, received_at, recovery_ns, decoding_ns) {
                (state, Some(decoded)) => (
                    SourceView {
                        slots: kept.slots.remove(slot),
                        completed: kept.completed.insert(slot),
                        ..kept
                    },
                    Some(report(source, slot, state, decoded)),
                ),
                (state, None) => (
                    SourceView { slots: kept.slots.insert(slot, state), ..kept },
                    None,
                ),
            }
        }
    }

    /// A slot that is done with: it is completed, or too old to be kept.
    pub open spec fn is_done(self, slot: u64) -> bool {
        self.completed.contains(slot) || slot < oldest_kept(self.newest_slot)
    }
}

/// The slots of one source.
pub struct SourceAssembly {
    pub newest_slot: u64,
    pub slots: HashMap<u64, SlotAssembly>,
    pub completed: HashSet<u64>,
}

impl View for SourceAssembly {
    type V = SourceView;

    open spec fn view(&self) -> SourceView {
        SourceView {
            newest_slot: self.newest_slot,
            slots: self.slots@.map_values(|state: SlotAssembly| state@),
            completed: self.completed@,
        }
    }
}

impl SourceAssembly {
    pub open spec fn wf(&self) -> bool {
        &&& forall|slot: u64| #[trigger]
            self.slots@.contains_key(slot) ==> self.slots@[slot].wf(slot)
        &&& self@.wf()
    }

    pub fn new() -> (assembly: SourceAssembly)
        ensures
            assembly@ == SourceView::empty(),
            assembly.wf(),
    {
        let assembly = SourceAssembly {
            newest_slot: 0,
            slots: HashMap::new(),
            completed: HashSet::new(),
        };
        assert(assembly@ =~= SourceView::empty());
        assembly
    }

    /// Notes that a shred of `slot` has been seen, and forgets the slots that are too old by then.
    pub fn prune(&mut self, slot: u64)
        requires
            old(self).wf(),
        ensures
            final(self)@ == old(self)@.pruned(slot),
            final(self).wf(),
    {
        let ghost before = self@;
        if slot > self.newest_slot {
            self.newest_slot = slot;
        }
        let oldest: u64 = self.newest_slot.saturating_sub(SLOT_RETENTION);
        keys::remove_keys_below(&mut self.slots, oldest);
        keys::remove_members_below(&mut self.completed, oldest);
        assert(self@ =~= before.pruned(slot));
        assert forall|slot: u64| #[trigger] self.slots@.contains_key(slot) implies self.slots@[slot].wf(
            slot,
        ) by {
            assert(old(self).slots@.contains_key(slot));
        }
        assert(self@.wf()) by {
            lemma_pruned_wf(before, slot);
        }
    }

    /// Takes in a shred that was received.
    pub fn record(&mut self, source: SourceId, shred: WireShred, received_at: u64) -> (reported:
        Option<ReconstructionEvent>)
        requires
            old(self).wf(),
            shred.wf(),
            fec::placed(shred@, shred.slot),
        ensures
            exists|recovery_ns: u64, decoding_ns: u64|
                (final(self)@, reported) == #[trigger] old(self)@.after(
                    source,
                    shred@,
                    received_at,
                    recovery_ns,
                    decoding_ns,
                ),
            final(self).wf(),
    {
        let ghost before = self@;
        let ghost view = shred@;
        let slot: u64 = shred.slot;
        self.prune(slot);
        let ghost kept = self@;
        let admitted: bool = match self.slots.get(&slot) {
            Some(state) => state.admits(&shred, slot),
            None => true,
        };
        if slot < self.newest_slot.saturating_sub(SLOT_RETENTION) || self.completed.contains(&slot)
            || !admitted {
            assert((self@, None::<ReconstructionEvent>) == before.after(
                source,
                view,
                received_at,
                0,
                0,
            ));
            return None;
        }
        assert(kept.accepts(view, received_at));
        let mut state: SlotAssembly = match self.slots.remove(&slot) {
            Some(state) => state,
            None => SlotAssembly::new(received_at),
        };
        assert(state@ == kept.slot(slot, received_at));
        assert(self@.slots =~= kept.slots.remove(slot));
        let ghost known = state@;
        let decoded: Option<DecodedBlock> = state.record(shred, received_at, slot);
        let ghost (recovery_ns, decoding_ns) = choose|recovery_ns: u64, decoding_ns: u64|
            (state@, decoded) == #[trigger] known.after(
                view,
                received_at,
                recovery_ns,
                decoding_ns,
            );
        let ghost after = before.after(source, view, received_at, recovery_ns, decoding_ns);
        let ghost reached = state@;
        match (decoded, state.last_data_index) {
            (Some(decoded), Some(last)) => {
                self.completed.insert(slot);
                proof {
                    assert(self@ =~= after.0);
                    lemma_completed_wf(kept, slot);
                }
                Some(
                    ReconstructionEvent {
                        source,
                        slot,
                        reconstructable_at: state.last_received_at,
                        first_source_shred_at: state.first_received_at,
                        expected_data_shreds: last.saturating_add(1),
                        received_shreds: state.received_shreds,
                        recovered_data_shreds: state.recovered_data_shreds,
                        fec_sets_recovered: state.fec_sets_recovered,
                        entries: decoded.entries,
                        transactions: decoded.transactions,
                        reconstruction_cpu_ns: state.reconstruction_cpu_ns,
                    },
                )
            },
            _ => {
                self.slots.insert(slot, state);
                proof {
                    assert(self@ =~= after.0);
                    lemma_inserted_wf(kept, slot, reached);
                }
                None
            },
        }
    }
}

/// Follows the slots of every source.
pub struct ReconstructionTracker {
    sources: HashMap<u64, SourceAssembly>,
}

impl View for ReconstructionTracker {
    type V = Map<SourceId, SourceView>;

    closed spec fn view(&self) -> Map<SourceId, SourceView> {
        Map::new(
            |source: SourceId| self.sources@.contains_key(registry::source_code(source)),
            |source: SourceId| self.sources@[registry::source_code(source)]@,
        )
    }
}

impl Default for ReconstructionTracker {
    fn default() -> (tracker: Self)
        ensures
            tracker@ == Map::<SourceId, SourceView>::empty(),
            tracker.wf(),
    {
        let tracker = ReconstructionTracker { sources: HashMap::new() };
        assert(tracker@ =~= Map::empty());
        tracker
    }
}

/// What is known of a source.
pub open spec fn source_view(sources: Map<SourceId, SourceView>, source: SourceId) -> SourceView {
    if sources.contains_key(source) {
        sources[source]
    } else {
        SourceView::empty()
    }
}

impl ReconstructionTracker {
    pub closed spec fn wf(&self) -> bool {
        forall|code: u64| #[trigger]
            self.sources@.contains_key(code) ==> self.sources@[code].wf()
    }

    /// Takes in a shred that was received. A datagram that is no shred with a Merkle proof, or not
    /// the shred that its key says, changes nothing.
    pub fn record(&mut self, event: &ShredEvent) -> (reported: Option<ReconstructionEvent>)
        requires
            old(self).wf(),
        ensures
            match wire::wire_shred(event.payload@, event.key) {
                Some(shred) => exists|recovery_ns: u64, decoding_ns: u64|
                    {
                        let after = #[trigger] source_view(old(self)@, event.source).after(
                            event.source,
                            shred,
                            event.received_at,
                            recovery_ns,
                            decoding_ns,
                        );
                        &&& final(self)@ == old(self)@.insert(event.source, after.0)
                        &&& reported == after.1
                    },
                None => final(self)@ == old(self)@ && reported is None,
            },
            final(self).wf(),
    {
        let shred: WireShred = match WireShred::parse(event) {
            Some(shred) => shred,
            None => return None,
        };
        let ghost before = self@;
        let ghost view = shred@;
        let code: u64 = event.source.code();
        let mut assembly: SourceAssembly = match self.sources.remove(&code) {
            Some(assembly) => assembly,
            None => SourceAssembly::new(),
        };
        let ghost known = assembly@;
        assert(known == source_view(before, event.source)) by {
            assert(before.contains_key(event.source) <==> old(self).sources@.contains_key(code));
        }
        proof {
            lemma_parsed_is_placed(event.payload@, event.key);
        }
        let reported: Option<ReconstructionEvent> = assembly.record(
            event.source,
            shred,
            event.received_at,
        );
        let ghost after = assembly@;
        self.sources.insert(code, assembly);
        proof {
            let (recovery_ns, decoding_ns) = choose|recovery_ns: u64, decoding_ns: u64|
                (after, reported) == #[trigger] known.after(
                    event.source,
                    view,
                    event.received_at,
                    recovery_ns,
                    decoding_ns,
                );
            assert(self@ =~= before.insert(event.source, after));
            assert(known.after(event.source, view, event.received_at, recovery_ns, decoding_ns)
                == (after, reported));
        }
        reported
    }
}

/// Of a tracker that is in order, every source is in order.
pub proof fn lemma_tracker_sources_wf(tracker: &ReconstructionTracker, source: SourceId)
    requires
        tracker.wf(),
    ensures
        source_view(tracker@, source).wf(),
{
    let code = registry::source_code(source);
    if tracker@.contains_key(source) {
        assert(tracker.sources@.contains_key(code));
        assert(tracker.sources@[code].wf());
    }
}

/// A shred that is not of a newer slot and tells nothing new leaves a source as it was.
pub proof fn lemma_refused_changes_nothing(
    view: SourceView,
    source: SourceId,
    shred: wire::WireShredView,
    received_at: u64,
    recovery_ns: u64,
    decoding_ns: u64,
)
    requires
        view.wf(),
        shred.slot <= view.newest_slot,
        !view.accepts(shred, received_at),
    ensures
        view.after(source, shred, received_at, recovery_ns, decoding_ns) == (
            view,
            None::<ReconstructionEvent>,
        ),
{
    let kept = view.pruned(shred.slot);
    assert(kept.slots =~= view.slots);
    assert(kept.completed =~= view.completed);
    assert(kept =~= view);
}

/// A shred that was parsed has its place in an FEC set.
pub proof fn lemma_parsed_is_placed(payload: Seq<u8>, key: ShredKey)
    ensures
        wire::wire_shred(payload, key) matches Some(shred) ==> fec::placed(shred, key.slot),
{
}

/// A slot that is done with stays so, and is not reported.
pub proof fn lemma_done_is_final(
    view: SourceView,
    source: SourceId,
    shred: wire::WireShredView,
    received_at: u64,
    recovery_ns: u64,
    decoding_ns: u64,
    slot: u64,
)
    requires
        view.is_done(slot),
    ensures
        ({
            let (after, reported) = view.after(
                source,
                shred,
                received_at,
                recovery_ns,
                decoding_ns,
            );
            after.is_done(slot) && (reported matches Some(event) ==> event.slot != slot)
        }),
{
}

/// A report is of the slot of the shred that was received, and the slot is done with by then.
pub proof fn lemma_reported_is_done(
    view: SourceView,
    source: SourceId,
    shred: wire::WireShredView,
    received_at: u64,
    recovery_ns: u64,
    decoding_ns: u64,
)
    ensures
        ({
            let (after, reported) = view.after(
                source,
                shred,
                received_at,
                recovery_ns,
                decoding_ns,
            );
            reported matches Some(event) ==> event.slot == shred.slot && event.source == source
                && !view.is_done(event.slot) && after.is_done(event.slot)
        }),
{
}

/// One shred received, and how long the work on it took.
pub struct Step {
    pub shred: wire::WireShredView,
    pub received_at: u64,
    pub recovery_ns: u64,
    pub decoding_ns: u64,
}

/// What a source comes to over the first `count` of `steps`.
pub open spec fn view_after(view: SourceView, source: SourceId, steps: Seq<Step>, count: int) -> SourceView
    decreases count,
{
    if count <= 0 {
        view
    } else {
        let step = steps[count - 1];
        view_after(view, source, steps, count - 1).after(
            source,
            step.shred,
            step.received_at,
            step.recovery_ns,
            step.decoding_ns,
        ).0
    }
}

/// What the step at `at` reports.
pub open spec fn reported_at(view: SourceView, source: SourceId, steps: Seq<Step>, at: int) -> Option<
    ReconstructionEvent,
> {
    let step = steps[at];
    view_after(view, source, steps, at).after(
        source,
        step.shred,
        step.received_at,
        step.recovery_ns,
        step.decoding_ns,
    ).1
}

/// Of each source, a slot is reported at most once, however many shreds of it are received.
pub proof fn lemma_reported_once(
    view: SourceView,
    source: SourceId,
    steps: Seq<Step>,
    first: int,
    second: int,
)
    requires
        0 <= first < second < steps.len(),
        reported_at(view, source, steps, first) is Some,
        reported_at(view, source, steps, second) is Some,
    ensures
        reported_at(view, source, steps, first)->0.slot != reported_at(
            view,
            source,
            steps,
            second,
        )->0.slot,
{
    let slot = reported_at(view, source, steps, first)->0.slot;
    let step = steps[first];
    lemma_reported_is_done(
        view_after(view, source, steps, first),
        source,
        step.shred,
        step.received_at,
        step.recovery_ns,
        step.decoding_ns,
    );
    assert(view_after(view, source, steps, first + 1).is_done(slot));
    lemma_stays_done(view, source, steps, first + 1, second, slot);
    let step = steps[second];
    lemma_done_is_final(
        view_after(view, source, steps, second),
        source,
        step.shred,
        step.received_at,
        step.recovery_ns,
        step.decoding_ns,
        slot,
    );
}

proof fn lemma_stays_done(
    view: SourceView,
    source: SourceId,
    steps: Seq<Step>,
    from: int,
    to: int,
    slot: u64,
)
    requires
        0 <= from <= to,
        view_after(view, source, steps, from).is_done(slot),
    ensures
        view_after(view, source, steps, to).is_done(slot),
    decreases to - from,
{
    if from < to {
        lemma_stays_done(view, source, steps, from, to - 1, slot);
        let step = steps[to - 1];
        lemma_done_is_final(
            view_after(view, source, steps, to - 1),
            source,
            step.shred,
            step.received_at,
            step.recovery_ns,
            step.decoding_ns,
            slot,
        );
    }
}

/// A shred that its slot has already tells nothing new, whenever it comes again.
pub proof fn lemma_duplicate_is_ignored(
    view: SourceView,
    source: SourceId,
    shred: wire::WireShredView,
    received_at: u64,
    recovery_ns: u64,
    decoding_ns: u64,
)
    requires
        view.pruned(shred.slot).slots.contains_key(shred.slot),
        slot::fec_set(view.slots[shred.slot].fec_sets, shred.fec_set_index).has(
            shred.is_code(),
            shred.index,
        ),
    ensures
        view.after(source, shred, received_at, recovery_ns, decoding_ns) == (
            view.pruned(shred.slot),
            None::<ReconstructionEvent>,
        ),
{
}

/// What is held of a source is bounded: the slots that are followed and those that are completed
/// are at most as many as are kept.
pub proof fn lemma_retention_is_bounded(view: SourceView)
    requires
        view.wf(),
    ensures
        view.slots.dom().union(view.completed).finite(),
        view.slots.dom().union(view.completed).len() <= SLOT_RETENTION + 1,
{
    broadcast use vstd::set_lib::range_set_properties;

    let oldest = oldest_kept(view.newest_slot);
    let held = view.slots.dom().union(view.completed);
    let inside = Set::<u64>::range(oldest, view.newest_slot).insert(view.newest_slot);
    assert(held.subset_of(inside)) by {
        assert forall|slot: u64| #[trigger] held.contains(slot) implies inside.contains(slot) by {
            assert(view.slots.contains_key(slot) || view.completed.contains(slot));
        }
    }
    vstd::set_lib::lemma_len_subset(held, inside);
}

/// A source stays in order with one more slot that is in order.
proof fn lemma_inserted_wf(view: SourceView, slot: u64, state: slot::SlotView)
    requires
        view.wf(),
        state.wf(slot),
        !view.completed.contains(slot),
        oldest_kept(view.newest_slot) <= slot <= view.newest_slot,
    ensures
        (SourceView { slots: view.slots.insert(slot, state), ..view }).wf(),
{
    let after = SourceView { slots: view.slots.insert(slot, state), ..view };
    assert forall|s: u64| #[trigger] after.slots.contains_key(s) implies {
        &&& after.slots[s].wf(s)
        &&& !after.completed.contains(s)
        &&& oldest_kept(after.newest_slot) <= s <= after.newest_slot
    } by {
        if s != slot {
            assert(view.slots.contains_key(s));
        }
    }
}

/// A source stays in order when a slot is completed.
proof fn lemma_completed_wf(view: SourceView, slot: u64)
    requires
        view.wf(),
        oldest_kept(view.newest_slot) <= slot <= view.newest_slot,
    ensures
        (SourceView {
            slots: view.slots.remove(slot),
            completed: view.completed.insert(slot),
            ..view
        }).wf(),
{
    let after = SourceView {
        slots: view.slots.remove(slot),
        completed: view.completed.insert(slot),
        ..view
    };
    assert forall|s: u64| #[trigger] after.slots.contains_key(s) implies {
        &&& after.slots[s].wf(s)
        &&& !after.completed.contains(s)
        &&& oldest_kept(after.newest_slot) <= s <= after.newest_slot
    } by {
        assert(view.slots.contains_key(s));
    }
}

/// Pruning keeps a source in order.
proof fn lemma_pruned_wf(view: SourceView, slot: u64)
    requires
        view.wf(),
    ensures
        view.pruned(slot).wf(),
{
    let after = view.pruned(slot);
    assert forall|s: u64| #[trigger] after.slots.contains_key(s) implies {
        &&& after.slots[s].wf(s)
        &&& !after.completed.contains(s)
        &&& oldest_kept(after.newest_slot) <= s <= after.newest_slot
    } by {
        assert(view.slots.contains_key(s));
    }
    assert forall|s: u64| #[trigger] after.completed.contains(s) implies oldest_kept(
        after.newest_slot,
    ) <= s <= after.newest_slot by {
        assert(view.completed.contains(s));
    }
}

/// A source stays in order, whatever comes of a shred.
pub proof fn lemma_after_wf(
    view: SourceView,
    source: SourceId,
    shred: wire::WireShredView,
    received_at: u64,
    recovery_ns: u64,
    decoding_ns: u64,
)
    requires
        view.wf(),
        fec::placed(shred, shred.slot),
    ensures
        view.after(source, shred, received_at, recovery_ns, decoding_ns).0.wf(),
{
    let slot = shred.slot;
    let kept = view.pruned(slot);
    lemma_pruned_wf(view, slot);
    if kept.accepts(shred, received_at) {
        let state = kept.slot(slot, received_at);
        slot::lemma_after_wf(state, slot, shred, received_at, recovery_ns, decoding_ns);
        let after = state.after(shred, received_at, recovery_ns, decoding_ns).0;
        lemma_inserted_wf(kept, slot, after);
        lemma_completed_wf(kept, slot);
    }
}

/// Whether a data shred with this index is known that ends the slot.
pub open spec fn ended_by(state: slot::SlotView, index: u32) -> bool {
    exists|set: u32, at: int| slot::ends(state.fec_sets, set, at, index)
}

/// What a report says of its slot. The shred that brought it about completes the slot: every data
/// shred is known up to one that ends the slot, at most as many as a slot can have, and they spell
/// the block whose entries and transactions are reported. At least as many shreds were received and
/// recovered, and the first was received no later than the last.
pub proof fn lemma_report_is_sound(
    view: SourceView,
    source: SourceId,
    shred: wire::WireShredView,
    received_at: u64,
    recovery_ns: u64,
    decoding_ns: u64,
)
    requires
        view.wf(),
        fec::placed(shred, shred.slot),
    ensures
        view.after(source, shred, received_at, recovery_ns, decoding_ns).1 matches Some(event)
            ==> {
            let kept = view.pruned(shred.slot);
            let state = kept.slot(shred.slot, received_at).after(
                shred,
                received_at,
                recovery_ns,
                decoding_ns,
            ).0;
            &&& event.source == source
            &&& event.slot == shred.slot
            &&& 1 <= event.expected_data_shreds <= wire::MAX_DATA_SHREDS_PER_SLOT
            &&& event.received_shreds + event.recovered_data_shreds >= event.expected_data_shreds
            &&& event.first_source_shred_at <= received_at <= event.reconstructable_at
            &&& forall|index: u32|
                index < event.expected_data_shreds ==> (#[trigger] slot::data_shred(
                    state.fec_sets,
                    index,
                ) matches Some(known) && known.is_data() && known.index == index && known.slot
                    == event.slot)
            &&& ended_by(state, (event.expected_data_shreds - 1) as u32)
            &&& slot::block(state.fec_sets, (event.expected_data_shreds - 1) as u32) == Some(
                DecodedBlock { entries: event.entries, transactions: event.transactions },
            )
        },
{
    let slot = shred.slot;
    let kept = view.pruned(slot);
    lemma_pruned_wf(view, slot);
    if view.after(source, shred, received_at, recovery_ns, decoding_ns).1 is Some {
        let before = kept.slot(slot, received_at);
        slot::lemma_after_wf(before, slot, shred, received_at, recovery_ns, decoding_ns);
        let state = before.after(shred, received_at, recovery_ns, decoding_ns).0;
        assert(state.complete());
        let last = state.last_data_index->0;
        slot::lemma_complete_is_counted(state, slot);
        assert forall|index: u32| index <= last implies (#[trigger] slot::data_shred(
            state.fec_sets,
            index,
        ) matches Some(known) && known.is_data() && known.index == index && known.slot == slot) by {
            slot::lemma_complete_has_data(state, slot, index);
        }
    }
}

/// A shred tells nothing of other slots than its own. Those that are more than 128 slots behind the
/// newest one are forgotten; all others stay as they were, followed or completed.
pub proof fn lemma_other_slots_are_untouched(
    view: SourceView,
    source: SourceId,
    shred: wire::WireShredView,
    received_at: u64,
    recovery_ns: u64,
    decoding_ns: u64,
    slot: u64,
)
    requires
        slot != shred.slot,
    ensures
        ({
            let after = view.after(source, shred, received_at, recovery_ns, decoding_ns).0;
            let kept = slot + 128 >= after.newest_slot;
            &&& view.newest_slot <= after.newest_slot
            &&& shred.slot <= after.newest_slot
            &&& after.newest_slot == view.newest_slot || after.newest_slot == shred.slot
            &&& after.slots.contains_key(slot) <==> view.slots.contains_key(slot) && kept
            &&& after.slots.contains_key(slot) ==> after.slots[slot] == view.slots[slot]
            &&& after.completed.contains(slot) <==> view.completed.contains(slot) && kept
        }),
{
}

/// A slot is done with just where its block was reported or it is more than 128 slots behind the
/// newest one; until then every shred of it that its set admits is taken in.
pub proof fn lemma_followed_until_done(
    view: SourceView,
    source: SourceId,
    shred: wire::WireShredView,
    received_at: u64,
    recovery_ns: u64,
    decoding_ns: u64,
)
    requires
        view.wf(),
        shred.slot + 128 >= view.newest_slot,
        !view.completed.contains(shred.slot),
        slot::fec_set(view.slot(shred.slot, received_at).fec_sets, shred.fec_set_index).admits(
            shred,
        ),
    ensures
        ({
            let (after, reported) = view.after(
                source,
                shred,
                received_at,
                recovery_ns,
                decoding_ns,
            );
            let known = after.slots[shred.slot];
            &&& !view.is_done(shred.slot)
            &&& after.completed.contains(shred.slot) <==> reported is Some
            &&& after.slots.contains_key(shred.slot) <==> reported is None
            &&& reported is None ==> {
                &&& known.first_received_at <= received_at <= known.last_received_at
                &&& known.fec_sets.contains_key(shred.fec_set_index)
                &&& known.fec_sets[shred.fec_set_index].shreds.contains(shred)
                &&& view.slots.contains_key(shred.slot) ==> known.first_received_at
                    <= view.slots[shred.slot].first_received_at
            }
        }),
{
    let kept = view.pruned(shred.slot);
    let before = kept.slot(shred.slot, received_at);
    let added = before.with(shred, received_at);
    let now = added.fec_sets[shred.fec_set_index];
    let n = now.shreds.len() - 1;
    assert(now.shreds[n] == shred);
    let after = now.after_recovery(shred.fec_set_index);
    assert(after.shreds[n] == shred);
    assert(after.shreds.contains(shred));
}

/// What comes from one source tells nothing of another.
pub proof fn lemma_sources_are_apart(
    sources: Map<SourceId, SourceView>,
    source: SourceId,
    view: SourceView,
    other: SourceId,
)
    ensures
        source_view(sources.insert(source, view), source) == view,
        other != source ==> source_view(sources.insert(source, view), other) == source_view(
            sources,
            other,
        ),
        source_view(Map::empty(), source) == SourceView::empty(),
{
}

} // verus!
