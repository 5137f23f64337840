//! What the report of a slot owes to the way in which its shreds are delivered: nothing but the
//! times.

use vstd::prelude::*;

use crate::entries::DecodedBlock;
use crate::fec;
use crate::reconstruction::{self, SourceView, Step};
use crate::registry::{ReconstructionEvent, SourceId};
use crate::slot;
use crate::wire;

verus! {

/// What a slot of which nothing was known comes to over the first `count` of `steps`.
pub open spec fn slot_after(steps: Seq<Step>, count: int) -> slot::SlotView
    decreases count,
{
    if count <= 0 {
        slot::SlotView::empty(steps[0].received_at)
    } else {
        let step = steps[count - 1];
        slot_after(steps, count - 1).after(
            step.shred,
            step.received_at,
            step.recovery_ns,
            step.decoding_ns,
        ).0
    }
}

/// The block that the step at `at` completes.
pub open spec fn decoded_at(steps: Seq<Step>, at: int) -> Option<DecodedBlock> {
    let step = steps[at];
    slot_after(steps, at).after(
        step.shred,
        step.received_at,
        step.recovery_ns,
        step.decoding_ns,
    ).1
}

/// Whether the shred of the step at `at` is new to its FEC set and agrees with it.
pub open spec fn admitted_at(steps: Seq<Step>, at: int) -> bool {
    let shred = steps[at].shred;
    slot::fec_set(slot_after(steps, at).fec_sets, shred.fec_set_index).admits(shred)
}

/// Whether nothing is known of a slot that a source would follow.
pub open spec fn untouched(view: SourceView, slot: u64) -> bool {
    &&& !view.slots.contains_key(slot)
    &&& !view.is_done(slot)
}

/// Whether the step at `at` is of the slot, is admitted and completes no block.
#[verifier::opaque]
pub(crate) open spec fn gathers_at(steps: Seq<Step>, slot: u64, at: int) -> bool {
    steps[at].shred.slot == slot && admitted_at(steps, at) && decoded_at(steps, at) is None
}

/// Whether the first `count` steps are all of one slot, are all admitted and complete no block.
pub(crate) open spec fn gathers(steps: Seq<Step>, slot: u64, count: int) -> bool {
    forall|j: int| 0 <= j < count ==> #[trigger] gathers_at(steps, slot, j)
}

/// While a source gathers shreds of a slot, it reports nothing and follows the slot.
pub(crate) proof fn lemma_gathers(view: SourceView, source: SourceId, steps: Seq<Step>, slot: u64, count: int)
    requires
        untouched(view, slot),
        0 <= count,
        gathers(steps, slot, count),
    ensures
        ({
            let now = reconstruction::view_after(view, source, steps, count);
            &&& !now.is_done(slot)
            &&& now.slots.contains_key(slot) == (count > 0)
            &&& count > 0 ==> now.slots[slot] == slot_after(steps, count)
        }),
        forall|j: int|
            0 <= j < count ==> #[trigger] reconstruction::reported_at(view, source, steps, j)
                is None,
    decreases count,
{
    if count > 0 {
        let at = count - 1;
        assert(gathers_at(steps, slot, at));
        lemma_gathers(view, source, steps, slot, at);
        reveal(gathers_at);
        lemma_next(view, source, steps, slot, at);
    }
}

/// What a source reports on the next shred of a slot that it has gathered shreds of.
pub(crate) proof fn lemma_next(view: SourceView, source: SourceId, steps: Seq<Step>, slot: u64, at: int)
    requires
        untouched(view, slot),
        0 <= at,
        steps[at].shred.slot == slot,
        admitted_at(steps, at),
        ({
            let now = reconstruction::view_after(view, source, steps, at);
            &&& !now.is_done(slot)
            &&& now.slots.contains_key(slot) == (at > 0)
            &&& at > 0 ==> now.slots[slot] == slot_after(steps, at)
        }),
    ensures
        ({
            let next = reconstruction::view_after(view, source, steps, at + 1);
            let reported = reconstruction::reported_at(view, source, steps, at);
            match decoded_at(steps, at) {
                Some(decoded) => reported == Some(
                    reconstruction::report(source, slot, slot_after(steps, at + 1), decoded),
                ),
                None => {
                    &&& reported is None
                    &&& !next.is_done(slot)
                    &&& next.slots.contains_key(slot)
                    &&& next.slots[slot] == slot_after(steps, at + 1)
                },
            }
        }),
{
    let now = reconstruction::view_after(view, source, steps, at);
    let kept = now.pruned(slot);
    let received_at = steps[at].received_at;
    assert(kept.slot(slot, received_at) == slot_after(steps, at));
    assert(kept.accepts(steps[at].shred, received_at));
}

/// The earliest time among the first `count` steps.
pub open spec fn earliest(steps: Seq<Step>, count: int) -> u64
    decreases count,
{
    if count <= 1 {
        steps[0].received_at
    } else {
        let before = earliest(steps, count - 1);
        if steps[count - 1].received_at < before {
            steps[count - 1].received_at
        } else {
            before
        }
    }
}

/// The latest time among the first `count` steps.
pub open spec fn latest(steps: Seq<Step>, count: int) -> u64
    decreases count,
{
    if count <= 1 {
        steps[0].received_at
    } else {
        let before = latest(steps, count - 1);
        if steps[count - 1].received_at > before {
            steps[count - 1].received_at
        } else {
            before
        }
    }
}

/// What the first `count` of a slot's data shreds, in their order, amount to.
pub open spec fn taken_in_order(shreds: Seq<wire::WireShredView>, count: int) -> Option<
    (Seq<u8>, int, int),
>
    decreases count,
{
    if count <= 0 {
        Some((Seq::empty(), 0, 0))
    } else {
        match taken_in_order(shreds, count - 1) {
            Some(sofar) => slot::taken(sofar, shreds[count - 1]),
            None => None,
        }
    }
}

/// The block that data shreds spell in their order.
pub open spec fn spelled(shreds: Seq<wire::WireShredView>) -> Option<DecodedBlock> {
    match taken_in_order(shreds, shreds.len() as int) {
        Some((batch, entries, transactions)) => if batch.len() == 0 {
            Some(DecodedBlock { entries: entries as u64, transactions: transactions as u64 })
        } else {
            None
        },
        None => None,
    }
}

/// Where the FEC sets of a slot hold these data shreds and no others, they spell the same block.
pub(crate) proof fn lemma_spells(
    fec_sets: Map<u32, fec::FecView>,
    shreds: Seq<wire::WireShredView>,
    count: int,
)
    requires
        0 <= count <= shreds.len() <= u32::MAX,
        forall|i: int|
            0 <= i < shreds.len() ==> slot::data_shred(fec_sets, i as u32) == Some(
                #[trigger] shreds[i],
            ),
    ensures
        slot::decoded_below(fec_sets, count as nat) == taken_in_order(shreds, count),
    decreases count,
{
    if count > 0 {
        lemma_spells(fec_sets, shreds, count - 1);
        assert(slot::data_shred(fec_sets, (count - 1) as u32) == Some(shreds[count - 1]));
    }
}

/// The data shred with an index is the one that every FEC set with that index has.
pub(crate) proof fn lemma_only_holder(
    fec_sets: Map<u32, fec::FecView>,
    index: u32,
    shred: wire::WireShredView,
    set: u32,
    at: int,
)
    requires
        slot::holds(fec_sets, set, at, index),
        forall|other: u32, there: int| #[trigger]
            slot::holds(fec_sets, other, there, index) ==> fec_sets[other].shreds[there] == shred,
    ensures
        slot::data_shred(fec_sets, index) == Some(shred),
{
    reveal(slot::data_shred);
    slot::lemma_highest_holder(fec_sets, index, set, at, u32::MAX as nat);
    let (best, there) = choose|set: u32, at: int|
        {
            &&& slot::holds(fec_sets, set, at, index)
            &&& forall|other: u32, there: int|
                slot::holds(fec_sets, other, there, index) ==> other <= set
        };
    assert(slot::holds(fec_sets, best, there, index));
}

/// The data shreds of a slot, in their order: every one has its place in the slot, only the last
/// ends the slot, and those of one FEC set agree.
pub open spec fn whole_slot(shreds: Seq<wire::WireShredView>, slot: u64) -> bool {
    &&& 0 < shreds.len() <= wire::MAX_DATA_SHREDS_PER_SLOT
    &&& forall|i: int|
        #![trigger shreds[i]]
        0 <= i < shreds.len() ==> {
            &&& shreds[i].is_data()
            &&& shreds[i].index == i
            &&& fec::placed(shreds[i], slot)
            &&& shreds[i].last_in_slot() == (i == shreds.len() - 1)
        }
    &&& forall|i: int, j: int|
        #![trigger shreds[i], shreds[j]]
        0 <= i < shreds.len() && 0 <= j < shreds.len() && shreds[i].fec_set_index
            == shreds[j].fec_set_index ==> fec::same_origin(shreds[i], shreds[j])
}

/// Whether every one of `shreds` is received once, in whatever order.
pub open spec fn delivers(steps: Seq<Step>, shreds: Seq<wire::WireShredView>) -> bool {
    &&& steps.len() == shreds.len()
    &&& forall|k: int|
        #![trigger steps[k]]
        0 <= k < steps.len() ==> steps[k].shred.index < shreds.len() && steps[k].shred
            == shreds[steps[k].shred.index as int]
    &&& forall|j: int, k: int|
        #![trigger steps[j], steps[k]]
        0 <= j < k < steps.len() ==> steps[j].shred.index != steps[k].shred.index
}

/// Whether a shred is that of one of the first `count` steps.
spec fn comes_from(steps: Seq<Step>, count: int, shred: wire::WireShredView) -> bool {
    exists|j: int| 0 <= j < count && (#[trigger] steps[j]).shred == shred
}

/// What is known of a slot once the first `count` of its data shreds are received, in whatever
/// order.
spec fn collected(
    state: slot::SlotView,
    steps: Seq<Step>,
    shreds: Seq<wire::WireShredView>,
    slot: u64,
    count: int,
) -> bool {
    &&& state.wf(slot)
    &&& forall|set: u32| #[trigger]
        state.fec_sets.contains_key(set) ==> state.fec_sets[set].erasure_config is None
    &&& forall|set: u32, at: int|
        #![trigger state.fec_sets[set].shreds[at]]
        state.fec_sets.contains_key(set) && 0 <= at < state.fec_sets[set].shreds.len()
            ==> comes_from(steps, count, state.fec_sets[set].shreds[at])
    &&& state.data_indexes.len() == count
    &&& state.last_data_index == if state.data_indexes.contains((shreds.len() - 1) as u32) {
        Some((shreds.len() - 1) as u32)
    } else {
        None
    }
    &&& state.received_shreds == count
    &&& state.recovered_data_shreds == 0
    &&& state.fec_sets_recovered == 0
    &&& state.first_received_at == earliest(steps, count)
    &&& state.last_received_at == latest(steps, count)
}

/// A data shred of a slot that collects is admitted, and the slot collects it.
proof fn lemma_collects(steps: Seq<Step>, shreds: Seq<wire::WireShredView>, slot: u64, at: int)
    requires
        whole_slot(shreds, slot),
        delivers(steps, shreds),
        0 <= at < steps.len(),
        collected(slot_after(steps, at), steps, shreds, slot, at),
    ensures
        admitted_at(steps, at),
        collected(slot_after(steps, at + 1), steps, shreds, slot, at + 1),
        decoded_at(steps, at) == if at + 1 == steps.len() {
            spelled(shreds)
        } else {
            None
        },
        at + 1 == steps.len() ==> slot_after(steps, at + 1).last_data_index == Some(
            (shreds.len() - 1) as u32,
        ),
{
    let state = slot_after(steps, at);
    let step = steps[at];
    let shred = step.shred;
    let set = shred.fec_set_index;
    let known = slot::fec_set(state.fec_sets, set);
    let n = shreds.len();
    assert(shred == shreds[shred.index as int]);
    assert forall|i: int| 0 <= i < known.shreds.len() implies {
        &&& fec::same_origin(#[trigger] known.shreds[i], shred)
        &&& known.shreds[i].index != shred.index
    } by {
        assert(state.fec_sets.contains_key(set));
        let held = state.fec_sets[set].shreds[i];
        assert(comes_from(steps, at, held));
        let j = choose|j: int| 0 <= j < at && (#[trigger] steps[j]).shred == held;
        assert(steps[j].shred.index != steps[at].shred.index);
        assert(held == shreds[held.index as int]);
    }
    assert(known.admits(shred));
    assert(!state.data_indexes.contains(shred.index)) by {
        if state.data_indexes.contains(shred.index) {
            let (s, i) = choose|s: u32, i: int| slot::holds(state.fec_sets, s, i, shred.index);
            let held = state.fec_sets[s].shreds[i];
            assert(comes_from(steps, at, held));
            let j = choose|j: int| 0 <= j < at && (#[trigger] steps[j]).shred == held;
            assert(steps[j].shred.index != steps[at].shred.index);
        }
    }
    let added = state.with(shred, step.received_at);
    let now = added.fec_sets[set];
    assert(!now.can_attempt());
    let tried = added.after_recovery(set, step.recovery_ns);
    let found = now.shreds.skip(now.shreds.len() as int);
    assert(found.len() == 0);
    assert(tried.data_indexes =~= added.data_indexes) by {
        assert forall|index: u32| !slot::indexed(found, index) by {}
    }
    assert(tried.fec_sets =~= added.fec_sets);
    slot::lemma_after_wf(
        state,
        slot,
        shred,
        step.received_at,
        step.recovery_ns,
        step.decoding_ns,
    );
    let after = slot_after(steps, at + 1);
    assert(after.fec_sets == added.fec_sets);
    assert(after.data_indexes == added.data_indexes);
    slot::lemma_finite(state.data_indexes);
    assert(after.data_indexes.len() == at + 1);
    assert forall|s: u32, i: int|
        #![trigger after.fec_sets[s].shreds[i]]
        after.fec_sets.contains_key(s) && 0 <= i < after.fec_sets[s].shreds.len() implies comes_from(
        steps,
        at + 1,
        after.fec_sets[s].shreds[i],
    ) by {
        let held = after.fec_sets[s].shreds[i];
        if s == set && i == known.shreds.len() {
            assert(steps[at].shred == held);
        } else {
            assert(state.fec_sets.contains_key(s));
            assert(held == state.fec_sets[s].shreds[i]);
            assert(comes_from(steps, at, held));
            let j = choose|j: int| 0 <= j < at && (#[trigger] steps[j]).shred == held;
            assert(steps[j].shred == held);
        }
    }
    assert(after.last_data_index == tried.last_data_index);
    assert(collected(after, steps, shreds, slot, at + 1));
    if at + 1 < n {
        if tried.complete() {
            slot::lemma_holds_enough(tried.data_indexes, n as nat);
        }
    } else {
        lemma_all_collected(after, steps, shreds, slot);
        assert(tried.complete()) by {
            assert forall|index: u32| index < n implies #[trigger] tried.data_indexes.contains(
                index,
            ) by {
                assert(after.data_indexes.contains(index));
            }
        }
        lemma_spells(after.fec_sets, shreds, n as int);
    }
}

/// Once as many data shreds are collected as the slot has, it has every one.
proof fn lemma_all_collected(
    state: slot::SlotView,
    steps: Seq<Step>,
    shreds: Seq<wire::WireShredView>,
    slot: u64,
)
    requires
        whole_slot(shreds, slot),
        delivers(steps, shreds),
        collected(state, steps, shreds, slot, steps.len() as int),
    ensures
        forall|index: u32| index < shreds.len() ==> #[trigger] state.data_indexes.contains(index),
        forall|i: int|
            0 <= i < shreds.len() ==> slot::data_shred(state.fec_sets, i as u32) == Some(
                #[trigger] shreds[i],
            ),
{
    broadcast use vstd::set_lib::range_set_properties;

    let n = shreds.len();
    let all = Set::<u32>::range(0, n as u32);
    slot::lemma_finite(state.data_indexes);
    assert forall|index: u32| #[trigger] state.data_indexes.contains(index) implies all.contains(
        index,
    ) by {
        let (s, i) = choose|s: u32, i: int| slot::holds(state.fec_sets, s, i, index);
        let held = state.fec_sets[s].shreds[i];
        assert(comes_from(steps, n as int, held));
        let j = choose|j: int| 0 <= j < n && (#[trigger] steps[j]).shred == held;
        assert(steps[j].shred.index < n);
    }
    vstd::set_lib::lemma_subset_equality(state.data_indexes, all);
    assert forall|index: u32| index < n implies #[trigger] state.data_indexes.contains(index) by {
        assert(all.contains(index));
    }
    assert forall|i: int| 0 <= i < n implies slot::data_shred(state.fec_sets, i as u32) == Some(
        #[trigger] shreds[i],
    ) by {
        let index = i as u32;
        assert(state.data_indexes.contains(index));
        let (set, at) = choose|set: u32, at: int| slot::holds(state.fec_sets, set, at, index);
        assert forall|other: u32, there: int| #[trigger]
            slot::holds(state.fec_sets, other, there, index) implies state.fec_sets[other].shreds[there]
            == shreds[i] by {
            let held = state.fec_sets[other].shreds[there];
            assert(comes_from(steps, n as int, held));
            let j = choose|j: int| 0 <= j < n && (#[trigger] steps[j]).shred == held;
            assert(steps[j].shred == shreds[steps[j].shred.index as int]);
        }
        lemma_only_holder(state.fec_sets, index, shreds[i], set, at);
    }
}

/// While not all data shreds of a slot are received, it collects them.
proof fn lemma_collected(steps: Seq<Step>, shreds: Seq<wire::WireShredView>, slot: u64, count: int)
    requires
        whole_slot(shreds, slot),
        delivers(steps, shreds),
        0 <= count < steps.len(),
    ensures
        collected(slot_after(steps, count), steps, shreds, slot, count),
        gathers(steps, slot, count),
    decreases count,
{
    if count == 0 {
        let state = slot_after(steps, 0);
        assert(state.data_indexes.len() == 0);
        assert(state.wf(slot));
    } else {
        lemma_collected(steps, shreds, slot, count - 1);
        lemma_collects(steps, shreds, slot, count - 1);
        assert(steps[count - 1].shred == shreds[steps[count - 1].shred.index as int]);
        assert(gathers_at(steps, slot, count - 1)) by {
            reveal(gathers_at);
        }
    }
}

/// The data shreds of a slot can be received in any order: the slot is reported on the last of
/// them and on no other, if they spell a block, and the report is the same but for the times.
pub proof fn lemma_order_is_free(
    view: SourceView,
    source: SourceId,
    slot: u64,
    shreds: Seq<wire::WireShredView>,
    steps: Seq<Step>,
)
    requires
        untouched(view, slot),
        whole_slot(shreds, slot),
        delivers(steps, shreds),
    ensures
        forall|k: int|
            0 <= k < steps.len() - 1 ==> #[trigger] reconstruction::reported_at(
                view,
                source,
                steps,
                k,
            ) is None,
        match spelled(shreds) {
            Some(decoded) => reconstruction::reported_at(view, source, steps, steps.len() - 1)
                matches Some(event) && event == (ReconstructionEvent {
                source,
                slot,
                reconstructable_at: latest(steps, steps.len() as int),
                first_source_shred_at: earliest(steps, steps.len() as int),
                expected_data_shreds: shreds.len() as u32,
                received_shreds: shreds.len() as u32,
                recovered_data_shreds: 0,
                fec_sets_recovered: 0,
                entries: decoded.entries,
                transactions: decoded.transactions,
                reconstruction_cpu_ns: event.reconstruction_cpu_ns,
            }),
            None => reconstruction::reported_at(view, source, steps, steps.len() - 1) is None,
        },
{
    let last = steps.len() - 1;
    lemma_collected(steps, shreds, slot, last);
    lemma_collects(steps, shreds, slot, last);
    lemma_gathers(view, source, steps, slot, last);
    assert(steps[last].shred == shreds[steps[last].shred.index as int]);
    lemma_next(view, source, steps, slot, last);
}

} // verus!
