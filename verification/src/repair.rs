//! What a slot of one FEC set owes to its parity: any shreds of it spell its block, if they are as
//! many as its data shreds.

use vstd::prelude::*;

use crate::delivery;
use crate::erasure;
use crate::fec;
use crate::reconstruction::{self, SourceView, Step};
use crate::registry::{ReconstructionEvent, SourceId};
use crate::shred::ShredKey;
use crate::slot;
use crate::wire::{self, WireKind};

verus! {

/// Whether a shred is what some datagram says.
pub open spec fn parsed(shred: wire::WireShredView) -> bool {
    exists|b: Seq<u8>, key: ShredKey| #[trigger] wire::wire_shred(b, key) == Some(shred)
}

/// The shards of a set: those of its data shreds, then those of its code shreds.
pub open spec fn shards(
    data: Seq<wire::WireShredView>,
    code: Seq<wire::WireShredView>,
) -> Seq<Seq<u8>> {
    (data + code).map_values(|shred: wire::WireShredView| shred.shard)
}

/// A slot of one FEC set: its data shreds and its code shreds, each in their order. They agree, all
/// shards are of one length, and the parity belongs to the data.
pub open spec fn whole_set(
    data: Seq<wire::WireShredView>,
    code: Seq<wire::WireShredView>,
    slot: u64,
) -> bool {
    &&& delivery::whole_slot(data, slot)
    &&& 0 < code.len()
    &&& data.len() + code.len() <= wire::MAX_SHARDS_PER_SET
    &&& forall|i: int|
        #![trigger data[i]]
        0 <= i < data.len() ==> {
            &&& parsed(data[i])
            &&& data[i].fec_set_index == 0
            &&& data[i].shard.len() > 0
            &&& data[i].shard.len() == data[0].shard.len()
        }
    &&& forall|p: int|
        #![trigger code[p]]
        0 <= p < code.len() ==> {
            &&& code[p].slot == slot
            &&& code[p].fec_set_index == 0
            &&& code[p].kind == (WireKind::Code {
                num_data: data.len() as usize,
                num_code: code.len() as usize,
                position: p as usize,
            })
            &&& fec::same_origin(code[p], data[0])
            &&& code[p].shard.len() == data[0].shard.len()
        }
    &&& forall|p: int, q: int|
        #![trigger code[p], code[q]]
        0 <= p < q < code.len() ==> code[p].index != code[q].index
    &&& erasure::codeword(data.len() as usize, code.len() as usize, shards(data, code))
}

/// Where a shred of a slot of one FEC set stands among its shards.
pub open spec fn place(shred: wire::WireShredView, num_data: int) -> int {
    fec::place(shred, 0, num_data)
}

/// Whether different shreds of a set are received, as many as it has data shreds.
pub open spec fn delivers_enough(
    steps: Seq<Step>,
    data: Seq<wire::WireShredView>,
    code: Seq<wire::WireShredView>,
) -> bool {
    &&& steps.len() == data.len()
    &&& forall|k: int|
        #![trigger steps[k]]
        0 <= k < steps.len() ==> {
            let at = place(steps[k].shred, data.len() as int);
            0 <= at < data.len() + code.len() && steps[k].shred == (data + code)[at]
        }
    &&& forall|j: int, k: int|
        #![trigger steps[j], steps[k]]
        0 <= j < k < steps.len() ==> steps[j].shred != steps[k].shred
}

/// How many of the first `count` steps are of code shreds.
pub open spec fn code_count(steps: Seq<Step>, count: int) -> nat
    decreases count,
{
    if count <= 0 {
        0
    } else {
        code_count(steps, count - 1) + if steps[count - 1].shred.is_code() {
            1nat
        } else {
            0nat
        }
    }
}

/// The shreds of the first `count` steps.
pub open spec fn received(steps: Seq<Step>, count: int) -> Seq<wire::WireShredView> {
    Seq::new(count as nat, |k: int| steps[k].shred)
}

/// What is known of the set once shreds of it are received, and before any is recovered.
spec fn received_set(
    steps: Seq<Step>,
    data: Seq<wire::WireShredView>,
    code: Seq<wire::WireShredView>,
    count: int,
) -> fec::FecView {
    fec::FecView {
        shreds: received(steps, count),
        erasure_config: if code_count(steps, count) > 0 {
            Some((data.len() as usize, code.len() as usize))
        } else {
            None
        },
        last_recovery_attempt_size: 0,
        recovered_data: false,
    }
}

/// What is known of the slot once the first `count` shreds of it are received, and before any is
/// recovered.
#[verifier::opaque]
spec fn collected(
    state: slot::SlotView,
    steps: Seq<Step>,
    data: Seq<wire::WireShredView>,
    code: Seq<wire::WireShredView>,
    slot: u64,
    count: int,
) -> bool {
    &&& state.wf(slot)
    &&& forall|set: u32| #[trigger] state.fec_sets.contains_key(set) ==> set == 0
    &&& slot::fec_set(state.fec_sets, 0) == received_set(steps, data, code, count)
    &&& state.data_indexes.len() == count - code_count(steps, count)
    &&& state.last_data_index == if state.data_indexes.contains((data.len() - 1) as u32) {
        Some((data.len() - 1) as u32)
    } else {
        None
    }
    &&& state.received_shreds == count
    &&& state.recovered_data_shreds == 0
    &&& state.fec_sets_recovered == 0
    &&& state.first_received_at == delivery::earliest(steps, count)
    &&& state.last_received_at == delivery::latest(steps, count)
}

/// What a step is of.
proof fn lemma_step_shred(
    steps: Seq<Step>,
    data: Seq<wire::WireShredView>,
    code: Seq<wire::WireShredView>,
    slot: u64,
    k: int,
)
    requires
        whole_set(data, code, slot),
        delivers_enough(steps, data, code),
        0 <= k < steps.len(),
    ensures
        ({
            let shred = steps[k].shred;
            &&& fec::placed(shred, slot)
            &&& shred.fec_set_index == 0
            &&& fec::same_origin(shred, data[0])
            &&& shred.is_data() || shred.is_code()
            &&& shred.is_data() ==> shred.index < data.len() && shred == data[shred.index as int]
            &&& shred.is_code() ==> {
                &&& place(shred, data.len() as int) >= data.len()
                &&& shred == code[place(shred, data.len() as int) - data.len()]
            }
            &&& shred.shard == shards(data, code)[place(shred, data.len() as int)]
            &&& shred.shard.len() == data[0].shard.len()
        }),
{
    let shred = steps[k].shred;
    let n = data.len() as int;
    let at = place(shred, n);
    assert(shred == (data + code)[at]);
    assert(data[0].fec_set_index == 0);
    if at < n {
        assert((data + code)[at] == data[at]);
        assert(data[at].fec_set_index == data[0].fec_set_index);
    } else {
        assert((data + code)[at] == code[at - n]);
    }
}

/// Two steps are not of the same kind and index, nor of one place.
proof fn lemma_steps_differ(
    steps: Seq<Step>,
    data: Seq<wire::WireShredView>,
    code: Seq<wire::WireShredView>,
    slot: u64,
    j: int,
    k: int,
)
    requires
        whole_set(data, code, slot),
        delivers_enough(steps, data, code),
        0 <= j < k < steps.len(),
    ensures
        place(steps[j].shred, data.len() as int) != place(steps[k].shred, data.len() as int),
        !(steps[j].shred.is_code() == steps[k].shred.is_code() && steps[j].shred.index
            == steps[k].shred.index),
        fec::same_origin(steps[j].shred, steps[k].shred),
{
    let n = data.len() as int;
    lemma_step_shred(steps, data, code, slot, j);
    lemma_step_shred(steps, data, code, slot, k);
    let (a, b) = (steps[j].shred, steps[k].shred);
    assert(a != b);
    if a.is_code() && b.is_code() {
        let (p, q) = (place(a, n) - n, place(b, n) - n);
        assert(p != q);
        if p < q {
            assert(code[p].index != code[q].index);
        } else {
            assert(code[q].index != code[p].index);
        }
    }
}

/// A shred of the slot is admitted, and the slot collects it.
proof fn lemma_takes(
    state: slot::SlotView,
    steps: Seq<Step>,
    data: Seq<wire::WireShredView>,
    code: Seq<wire::WireShredView>,
    slot: u64,
    at: int,
)
    requires
        whole_set(data, code, slot),
        delivers_enough(steps, data, code),
        0 <= at < steps.len(),
        collected(state, steps, data, code, slot, at),
    ensures
        slot::fec_set(state.fec_sets, 0).admits(steps[at].shred),
        state.with(steps[at].shred, steps[at].received_at).fec_sets.contains_key(0),
        collected(
            state.with(steps[at].shred, steps[at].received_at),
            steps,
            data,
            code,
            slot,
            at + 1,
        ),
{
    let shred = steps[at].shred;
    let n = data.len();
    let known = slot::fec_set(state.fec_sets, 0);
    let added = state.with(shred, steps[at].received_at);
    reveal(collected);
    lemma_step_shred(steps, data, code, slot, at);
    assert forall|i: int| 0 <= i < known.shreds.len() implies {
        &&& fec::same_origin(#[trigger] known.shreds[i], shred)
        &&& !(known.shreds[i].is_code() == shred.is_code() && known.shreds[i].index == shred.index)
        &&& known.shreds[i].is_data() ==> known.shreds[i].index < n
    } by {
        assert(known.shreds[i] == steps[i].shred);
        lemma_steps_differ(steps, data, code, slot, i, at);
        lemma_step_shred(steps, data, code, slot, i);
    }
    assert(known.admits(shred));
    if shred.is_data() {
        assert(!state.data_indexes.contains(shred.index)) by {
            if state.data_indexes.contains(shred.index) {
                let (s, i) = choose|s: u32, i: int| slot::holds(state.fec_sets, s, i, shred.index);
                assert(s == 0);
                assert(known.shreds[i].is_data());
            }
        }
        slot::lemma_finite(state.data_indexes);
    }
    assert(added.fec_sets[0].shreds =~= received(steps, at + 1));
    assert(added.fec_sets[0] == received_set(steps, data, code, at + 1));
    fec::lemma_with_wf(known, slot, shred);
    slot::lemma_with_wf(state, slot, shred, steps[at].received_at);
}

/// While fewer shreds are received than the set has data shreds, none is recovered, and the block
/// is not complete.
proof fn lemma_collects(
    steps: Seq<Step>,
    data: Seq<wire::WireShredView>,
    code: Seq<wire::WireShredView>,
    slot: u64,
    at: int,
)
    requires
        whole_set(data, code, slot),
        delivers_enough(steps, data, code),
        0 <= at < steps.len() - 1,
        collected(delivery::slot_after(steps, at), steps, data, code, slot, at),
    ensures
        delivery::admitted_at(steps, at),
        delivery::decoded_at(steps, at) is None,
        collected(delivery::slot_after(steps, at + 1), steps, data, code, slot, at + 1),
{
    let state = delivery::slot_after(steps, at);
    let step = steps[at];
    let shred = step.shred;
    lemma_takes(state, steps, data, code, slot, at);
    lemma_step_shred(steps, data, code, slot, at);
    let added = state.with(shred, step.received_at);
    let now = added.fec_sets[0];
    reveal(collected);
    assert(!now.can_attempt());
    let tried = added.after_recovery(0, step.recovery_ns);
    let found = now.shreds.skip(now.shreds.len() as int);
    assert(tried.data_indexes =~= added.data_indexes) by {
        assert forall|index: u32| !slot::indexed(found, index) by {}
    }
    assert(tried.fec_sets =~= added.fec_sets);
    assert(tried =~= added);
    if tried.complete() {
        slot::lemma_holds_enough(tried.data_indexes, data.len());
    }
}

/// While fewer shreds are received than the set has data shreds, the slot collects them.
#[verifier::rlimit(40)]
proof fn lemma_collected(
    steps: Seq<Step>,
    data: Seq<wire::WireShredView>,
    code: Seq<wire::WireShredView>,
    slot: u64,
    count: int,
)
    requires
        whole_set(data, code, slot),
        delivers_enough(steps, data, code),
        0 <= count < steps.len(),
    ensures
        collected(delivery::slot_after(steps, count), steps, data, code, slot, count),
        delivery::gathers(steps, slot, count),
    decreases count,
{
    if count == 0 {
        assert(collected(delivery::slot_after(steps, 0), steps, data, code, slot, 0)) by {
            reveal(collected);
            assert(received(steps, 0) =~= Seq::empty());
        }
    } else {
        lemma_collected(steps, data, code, slot, count - 1);
        lemma_collects(steps, data, code, slot, count - 1);
        lemma_step_shred(steps, data, code, slot, count - 1);
        assert(delivery::gathers_at(steps, slot, count - 1)) by {
            reveal(delivery::gathers_at);
        }
    }
}

/// The shreds received are of data or of code.
proof fn lemma_data_count(steps: Seq<Step>, count: int)
    requires
        0 <= count,
        forall|k: int| #![trigger steps[k]] 0 <= k < count ==> steps[k].shred.is_data() || steps[k].shred.is_code(),
    ensures
        received(steps, count).filter(|shred: wire::WireShredView| shred.is_data()).len()
            + code_count(steps, count) == count,
        code_count(steps, count) > 0 ==> exists|k: int|
            0 <= k < count && (#[trigger] received(steps, count)[k]).is_code(),
    decreases count,
{
    reveal(Seq::filter);
    if count > 0 {
        lemma_data_count(steps, count - 1);
        let (more, fewer) = (received(steps, count), received(steps, count - 1));
        assert(more.drop_last() =~= fewer);
        assert(more.last() == steps[count - 1].shred);
        if code_count(steps, count) > 0 {
            if steps[count - 1].shred.is_code() {
                assert(more[count - 1].is_code());
            } else {
                let k = choose|k: int| 0 <= k < count - 1 && (#[trigger] fewer[k]).is_code();
                assert(more[k].is_code());
            }
        }
    }
}

/// Once as many shreds are received as the set has data shreds, one of code among them, its shards
/// are computed.
proof fn lemma_shards_recovered(
    steps: Seq<Step>,
    data: Seq<wire::WireShredView>,
    code: Seq<wire::WireShredView>,
    slot: u64,
)
    requires
        whole_set(data, code, slot),
        delivers_enough(steps, data, code),
        code_count(steps, steps.len() as int) > 0,
        received_set(steps, data, code, steps.len() as int).wf(slot, 0),
    ensures
        ({
            let now = received_set(steps, data, code, steps.len() as int);
            &&& now.can_attempt()
            &&& fec::recovered_shards(now, 0) == Some(
                shards(data, code).map_values(|shard: Seq<u8>| Some(shard)),
            )
        }),
{
    let n = data.len() as int;
    let now = received_set(steps, data, code, n);
    let full = shards(data, code);
    assert forall|k: int| #![trigger steps[k]] 0 <= k < n implies steps[k].shred.is_data()
        || steps[k].shred.is_code() by {
        lemma_step_shred(steps, data, code, slot, k);
    }
    lemma_data_count(steps, n);
    assert(now.can_attempt());
    assert(fec::layable(now.shreds, n, 0, n)) by {
        assert forall|i: int| 0 <= i < n implies (#[trigger] now.shreds[i]).shard.len()
            == now.shreds[0].shard.len() by {
            lemma_step_shred(steps, data, code, slot, i);
            lemma_step_shred(steps, data, code, slot, 0);
        }
        assert forall|i: int, j: int|
            #![trigger now.shreds[i], now.shreds[j]]
            0 <= i < j < n implies fec::place(now.shreds[i], 0, n) != fec::place(
            now.shreds[j],
            0,
            n,
        ) by {
            lemma_steps_differ(steps, data, code, slot, i, j);
        }
    }
    lemma_step_shred(steps, data, code, slot, 0);
    assert(data[0].shard.len() > 0);
    fec::lemma_enough_shreds_suffice(now, slot, 0);
    let there = fec::shards_of(now, 0)->0;
    assert(erasure::part_of(there, full)) by {
        assert forall|i: int|
            #![trigger there[i]]
            0 <= i < there.len() && there[i] is Some implies there[i] == Some(full[i]) by {
            let k = choose|k: int| 0 <= k < n && fec::place(#[trigger] now.shreds[k], 0, n) == i;
            lemma_step_shred(steps, data, code, slot, k);
        }
    }
}

/// The data shreds that are not received are recovered, each as it is.
proof fn lemma_missing_recovered(
    now: fec::FecView,
    data: Seq<wire::WireShredView>,
    code: Seq<wire::WireShredView>,
    slot: u64,
    count: nat,
)
    requires
        whole_set(data, code, slot),
        count <= data.len(),
        now.shreds.len() > 0,
        now.shreds[0].slot == slot,
        fec::same_origin(now.shreds[0], data[0]),
    ensures
        ({
            let full = shards(data, code).map_values(|shard: Seq<u8>| Some(shard));
            &&& fec::missing_shreds(now, 0, full, count) matches Some(found)
            &&& forall|k: int|
                #![trigger found[k]]
                0 <= k < found.len() ==> {
                    &&& found[k].index < count
                    &&& found[k] == data[found[k].index as int]
                    &&& !now.has(false, found[k].index)
                }
            &&& forall|index: u32|
                #![trigger now.has(false, index)]
                index < count && !now.has(false, index) ==> slot::indexed(found, index)
        }),
    decreases count,
{
    let full = shards(data, code).map_values(|shard: Seq<u8>| Some(shard));
    if count > 0 {
        let at = count - 1;
        lemma_missing_recovered(now, data, code, slot, at as nat);
        let before = fec::missing_shreds(now, 0, full, at as nat)->0;
        let shred = data[at];
        assert(full[at] == Some(shred.shard)) by {
            assert((data + code)[at] == data[at]);
        }
        assert(parsed(shred));
        let (b, key) = choose|b: Seq<u8>, key: ShredKey| #[trigger]
            wire::wire_shred(b, key) == Some(shred);
        wire::lemma_shard_spells_shred(b, key);
        assert(data[0].fec_set_index == shred.fec_set_index);
        assert(fec::same_origin(shred, data[0]));
        let first = now.shreds[0];
        assert(wire::recovered_shred(
            shred.shard,
            first.slot,
            at as u32,
            0,
            first.proof_size,
            first.resigned,
            first.signature,
        ) == Some(shred));
        let found = fec::missing_shreds(now, 0, full, count)->0;
        assert forall|index: u32|
            #![trigger now.has(false, index)]
            index < count && !now.has(false, index) implies slot::indexed(found, index) by {
            if index == at {
                assert(found[found.len() - 1].index == index);
            } else {
                assert(slot::indexed(before, index));
                let k = choose|k: int|
                    0 <= k < before.len() && (#[trigger] before[k]).index == index;
                assert(found[k].index == index);
            }
        }
    }
}

/// Where a shred that ends the slot is known or found, the index that the slot ends with is known.
pub(crate) proof fn lemma_end_is_known(known: Option<u32>, shreds: Seq<wire::WireShredView>)
    requires
        known is Some || exists|k: int|
            0 <= k < shreds.len() && (#[trigger] shreds[k]).last_in_slot(),
    ensures
        slot::last_flagged(known, shreds) is Some,
    decreases shreds.len(),
{
    if shreds.len() > 0 && !shreds.last().last_in_slot() {
        let fewer = shreds.drop_last();
        if known is None {
            let k = choose|k: int| 0 <= k < shreds.len() && (#[trigger] shreds[k]).last_in_slot();
            assert(fewer[k].last_in_slot());
        }
        lemma_end_is_known(known, fewer);
    }
}

/// What is known of the slot after the last shred that it takes to recover the others.
spec fn repaired(
    state: slot::SlotView,
    steps: Seq<Step>,
    data: Seq<wire::WireShredView>,
) -> bool {
    let n = steps.len() as int;
    &&& state.last_data_index == Some((n - 1) as u32)
    &&& forall|index: u32| index < n ==> #[trigger] state.data_indexes.contains(index)
    &&& forall|i: int|
        0 <= i < n ==> slot::data_shred(state.fec_sets, i as u32) == Some(#[trigger] data[i])
    &&& state.received_shreds == n
    &&& state.recovered_data_shreds == code_count(steps, n)
    &&& state.fec_sets_recovered == 1
    &&& state.first_received_at == delivery::earliest(steps, n)
    &&& state.last_received_at == delivery::latest(steps, n)
}

/// The last shred that it takes recovers the others.
proof fn lemma_repairs(
    added: slot::SlotView,
    steps: Seq<Step>,
    data: Seq<wire::WireShredView>,
    code: Seq<wire::WireShredView>,
    slot: u64,
    spent: u64,
)
    requires
        whole_set(data, code, slot),
        delivers_enough(steps, data, code),
        code_count(steps, steps.len() as int) > 0,
        collected(added, steps, data, code, slot, steps.len() as int),
        added.fec_sets.contains_key(0),
    ensures
        repaired(added.after_recovery(0, spent), steps, data),
{
    broadcast use vstd::set_lib::range_set_properties;

    reveal(collected);
    let n = data.len() as int;
    let now = added.fec_sets[0];
    let tried = added.after_recovery(0, spent);
    assert(now == received_set(steps, data, code, n));
    lemma_shards_recovered(steps, data, code, slot);
    lemma_step_shred(steps, data, code, slot, 0);
    assert(now.shreds[0] == steps[0].shred);
    lemma_missing_recovered(now, data, code, slot, n as nat);
    let full = shards(data, code).map_values(|shard: Seq<u8>| Some(shard));
    let found = fec::missing_shreds(now, 0, full, n as nat)->0;
    fec::lemma_missing_fits(now, slot, 0, full, n as nat);
    let after = now.after_recovery(0);
    assert(after.shreds == now.shreds + found);
    assert(after.shreds.skip(now.shreds.len() as int) =~= found);
    // the indexes
    let old_ones = added.data_indexes;
    let new_ones = Set::new(|index: u32| slot::indexed(found, index));
    let list = found.map_values(|shred: wire::WireShredView| shred.index);
    let all = Set::<u32>::range(0, n as u32);
    assert forall|index: u32| #[trigger] old_ones.contains(index) implies index < n && now.has(
        false,
        index,
    ) by {
        let (s, i) = choose|s: u32, i: int| slot::holds(added.fec_sets, s, i, index);
        assert(s == 0);
        assert(now.shreds[i] == steps[i].shred);
        lemma_step_shred(steps, data, code, slot, i);
    }
    assert forall|index: u32| index < n implies old_ones.contains(index) || #[trigger]
        new_ones.contains(index) by {
        if now.has(false, index) {
            let i = choose|i: int|
                0 <= i < now.shreds.len() && (#[trigger] now.shreds[i]).is_code() == false
                    && now.shreds[i].index == index;
            assert(slot::holds(added.fec_sets, 0, i, index));
            assert(old_ones.contains(index));
        }
    }
    assert(new_ones =~= list.to_set()) by {
        assert forall|index: u32| #[trigger] new_ones.contains(index) <==> list.contains(index) by {
            if new_ones.contains(index) {
                let k = choose|k: int|
                    0 <= k < found.len() && (#[trigger] found[k]).index == index;
                assert(list[k] == index);
            }
            if list.contains(index) {
                let k = choose|k: int| 0 <= k < list.len() && list[k] == index;
                assert(found[k].index == index);
            }
        }
    }
    assert(list.no_duplicates()) by {
        assert forall|j: int, k: int|
            0 <= j < list.len() && 0 <= k < list.len() && j != k implies list[j] != list[k] by {
            if j < k {
                assert(found[j].index < found[k].index);
            } else {
                assert(found[k].index < found[j].index);
            }
        }
    }
    list.unique_seq_to_set();
    slot::lemma_finite(old_ones);
    slot::lemma_finite(new_ones);
    assert forall|index: u32| #[trigger] new_ones.contains(index) implies index < n
        && !old_ones.contains(index) by {
        let k = choose|k: int| 0 <= k < found.len() && (#[trigger] found[k]).index == index;
        assert(!now.has(false, found[k].index));
    }
    assert(old_ones.disjoint(new_ones));
    vstd::set_lib::lemma_set_disjoint_lens(old_ones, new_ones);
    assert(old_ones.union(new_ones) =~= all);
    assert(found.len() == code_count(steps, n));
    assert forall|index: u32| index < n implies #[trigger] tried.data_indexes.contains(index) by {
        assert(old_ones.contains(index) || new_ones.contains(index));
    }
    // the end
    let end = (n - 1) as u32;
    if !old_ones.contains(end) {
        assert(new_ones.contains(end));
        let k = choose|k: int| 0 <= k < found.len() && (#[trigger] found[k]).index == end;
        assert(found[k] == data[n - 1]);
        assert(found[k].last_in_slot());
    }
    lemma_end_is_known(added.last_data_index, found);
    slot::lemma_last_flagged(added.last_data_index, found);
    assert(tried.last_data_index == slot::last_flagged(added.last_data_index, found));
    if added.last_data_index != tried.last_data_index {
        let last = tried.last_data_index->0;
        let k = choose|k: int|
            0 <= k < found.len() && (#[trigger] found[k]).index == last && found[k].last_in_slot();
        assert(found[k] == data[found[k].index as int]);
    }
    // the shreds
    assert forall|i: int| 0 <= i < n implies slot::data_shred(tried.fec_sets, i as u32) == Some(
        #[trigger] data[i],
    ) by {
        let index = i as u32;
        let at: int = if old_ones.contains(index) {
            let (s, at) = choose|s: u32, at: int| slot::holds(added.fec_sets, s, at, index);
            assert(s == 0);
            assert(after.shreds[at] == now.shreds[at]);
            at
        } else {
            assert(new_ones.contains(index));
            let k = choose|k: int| 0 <= k < found.len() && (#[trigger] found[k]).index == index;
            assert(after.shreds[n + k] == found[k]);
            n + k
        };
        assert(slot::holds(tried.fec_sets, 0, at, index));
        assert forall|other: u32, there: int| #[trigger]
            slot::holds(tried.fec_sets, other, there, index) implies tried.fec_sets[other].shreds[there]
            == data[i] by {
            assert(other == 0) by {
                if other != 0 {
                    assert(added.fec_sets.contains_key(other));
                }
            }
            if there < n {
                assert(after.shreds[there] == now.shreds[there]);
                assert(now.shreds[there] == steps[there].shred);
                lemma_step_shred(steps, data, code, slot, there);
            } else {
                assert(after.shreds[there] == found[there - n]);
            }
        }
        delivery::lemma_only_holder(tried.fec_sets, index, data[i], 0, at);
    }
}

/// Any shreds of a slot of one FEC set suffice, in whatever order, if they are as many as its data
/// shreds: where code shreds stand in for some of the data shreds, the slot is reported on the last
/// of them and on no other, if the data shreds spell a block, and the report is of that block.
pub proof fn lemma_any_shreds_suffice(
    view: SourceView,
    source: SourceId,
    slot: u64,
    data: Seq<wire::WireShredView>,
    code: Seq<wire::WireShredView>,
    steps: Seq<Step>,
)
    requires
        delivery::untouched(view, slot),
        whole_set(data, code, slot),
        delivers_enough(steps, data, code),
        code_count(steps, steps.len() as int) > 0,
    ensures
        forall|k: int|
            0 <= k < steps.len() - 1 ==> #[trigger] reconstruction::reported_at(
                view,
                source,
                steps,
                k,
            ) is None,
        match delivery::spelled(data) {
            Some(decoded) => reconstruction::reported_at(view, source, steps, steps.len() - 1)
                matches Some(event) && event == (ReconstructionEvent {
                source,
                slot,
                reconstructable_at: delivery::latest(steps, steps.len() as int),
                first_source_shred_at: delivery::earliest(steps, steps.len() as int),
                expected_data_shreds: data.len() as u32,
                received_shreds: data.len() as u32,
                recovered_data_shreds: code_count(steps, steps.len() as int) as u32,
                fec_sets_recovered: 1,
                entries: decoded.entries,
                transactions: decoded.transactions,
                reconstruction_cpu_ns: event.reconstruction_cpu_ns,
            }),
            None => reconstruction::reported_at(view, source, steps, steps.len() - 1) is None,
        },
{
    let last = steps.len() - 1;
    let n = data.len() as int;
    lemma_collected(steps, data, code, slot, last);
    delivery::lemma_gathers(view, source, steps, slot, last);
    let state = delivery::slot_after(steps, last);
    let step = steps[last];
    lemma_takes(state, steps, data, code, slot, last);
    lemma_step_shred(steps, data, code, slot, last);
    let added = state.with(step.shred, step.received_at);
    lemma_repairs(added, steps, data, code, slot, step.recovery_ns);
    let tried = added.after_recovery(0, step.recovery_ns);
    assert(tried.complete());
    delivery::lemma_spells(tried.fec_sets, data, n);
    assert(delivery::decoded_at(steps, last) == delivery::spelled(data));
    delivery::lemma_next(view, source, steps, slot, last);
    assert(code_count(steps, n) <= n) by {
        assert forall|k: int| #![trigger steps[k]] 0 <= k < n implies steps[k].shred.is_data()
            || steps[k].shred.is_code() by {
            lemma_step_shred(steps, data, code, slot, k);
        }
        lemma_data_count(steps, n);
    }
}

} // verus!
