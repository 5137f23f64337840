//! When a slot is reported: as soon as what has been received of each of its FEC sets is as much as
//! the set has data, whichever shreds those are, in whatever order they come, and however often.

use vstd::prelude::*;

use crate::delivery;
use crate::erasure;
use crate::fec;
use crate::reconstruction::{self, SourceView, Step};
use crate::registry::SourceId;
use crate::repair;
use crate::shred::ShredKey;
use crate::slot;
use crate::wire::{self, WireKind};

verus! {

/// An FEC set of a slot: `count` data shreds from index `first` on, and code shreds in their order.
pub struct FecSet {
    pub first: u32,
    pub count: nat,
    pub code: Seq<wire::WireShredView>,
}

/// Whether the index of a data shred lies in a set.
pub open spec fn covers(set: FecSet, index: int) -> bool {
    set.first <= index < set.first + set.count
}

/// The shards of a set: those of its data shreds, then those of its code shreds.
pub open spec fn set_shards(set: FecSet, data: Seq<wire::WireShredView>) -> Seq<Seq<u8>> {
    repair::shards(data.subrange(set.first as int, set.first + set.count), set.code)
}

/// A set of a slot, of which `data` are the data shreds: its shreds agree, its shards are of one
/// length, and its parity belongs to its data.
pub open spec fn set_wf(set: FecSet, data: Seq<wire::WireShredView>, slot: u64) -> bool {
    &&& 0 < set.count
    &&& 0 < set.code.len()
    &&& set.count + set.code.len() <= 256
    &&& set.first + set.count <= data.len()
    &&& forall|i: int|
        #![trigger data[i]]
        covers(set, i) ==> {
            &&& repair::parsed(data[i])
            &&& data[i].fec_set_index == set.first
            &&& data[i].shard.len() > 0
            &&& data[i].shard.len() == data[set.first as int].shard.len()
        }
    &&& forall|p: int|
        #![trigger set.code[p]]
        0 <= p < set.code.len() ==> {
            &&& set.code[p].slot == slot
            &&& set.code[p].fec_set_index == set.first
            &&& set.code[p].kind == (WireKind::Code {
                num_data: set.count as usize,
                num_code: set.code.len() as usize,
                position: p as usize,
            })
            &&& fec::same_origin(set.code[p], data[set.first as int])
            &&& set.code[p].shard.len() == data[set.first as int].shard.len()
        }
    &&& forall|p: int, q: int|
        #![trigger set.code[p], set.code[q]]
        0 <= p < q < set.code.len() ==> set.code[p].index != set.code[q].index
    &&& erasure::codeword(set.count as usize, set.code.len() as usize, set_shards(set, data))
}

/// A whole slot: its data shreds, and the sets that they are in.
pub open spec fn slot_wf(
    sets: Seq<FecSet>,
    data: Seq<wire::WireShredView>,
    slot: u64,
) -> bool {
    &&& delivery::whole_slot(data, slot)
    &&& forall|s: int| #![trigger sets[s]] 0 <= s < sets.len() ==> set_wf(sets[s], data, slot)
    &&& forall|s: int, t: int|
        #![trigger sets[s], sets[t]]
        0 <= s < t < sets.len() ==> sets[s].first != sets[t].first
    &&& forall|i: int|
        #![trigger data[i]]
        0 <= i < data.len() ==> exists|s: int| 0 <= s < sets.len() && covers(#[trigger] sets[s], i)
}

/// Whether a shred is one of a set's.
pub open spec fn is_of(
    shred: wire::WireShredView,
    set: FecSet,
    data: Seq<wire::WireShredView>,
) -> bool {
    match shred.kind {
        WireKind::Data { .. } => covers(set, shred.index as int) && shred
            == data[shred.index as int],
        WireKind::Code { position, .. } => position < set.code.len() && shred
            == set.code[position as int],
    }
}

/// The shreds of a set among the first `count` steps.
pub open spec fn received(steps: Seq<Step>, count: int, first: u32) -> Set<wire::WireShredView>
    decreases count,
{
    if count <= 0 {
        Set::empty()
    } else if steps[count - 1].shred.fec_set_index == first {
        received(steps, count - 1, first).insert(steps[count - 1].shred)
    } else {
        received(steps, count - 1, first)
    }
}

/// Whether as many shreds of each set are among the first `count` steps as the set has data.
pub open spec fn suffices(sets: Seq<FecSet>, steps: Seq<Step>, count: int) -> bool {
    forall|s: int|
        #![trigger sets[s]]
        0 <= s < sets.len() ==> received(steps, count, sets[s].first).len() >= sets[s].count
}

/// What is known of a set is of the set.
spec fn set_state(
    state: fec::FecView,
    set: FecSet,
    data: Seq<wire::WireShredView>,
    slot: u64,
) -> bool {
    &&& state.wf(slot, set.first)
    &&& forall|i: int|
        #![trigger state.shreds[i]]
        0 <= i < state.shreds.len() ==> is_of(state.shreds[i], set, data)
    &&& state.erasure_config is Some ==> state.erasure_config == Some(
        (set.count as usize, set.code.len() as usize),
    ) && exists|i: int| 0 <= i < state.shreds.len() && (#[trigger] state.shreds[i]).is_code()
}

/// Fewer shreds are known of a set than it takes to recover the others.
spec fn collecting(state: fec::FecView, set: FecSet) -> bool {
    state.shreds.len() < set.count && state.last_recovery_attempt_size == 0
}

/// All data shreds of a set are known.
spec fn filled(state: fec::FecView, set: FecSet) -> bool {
    forall|index: u32| covers(set, index as int) ==> #[trigger] state.has(false, index)
}

/// What a shred of a set is like.
proof fn lemma_shred_of(
    shred: wire::WireShredView,
    set: FecSet,
    data: Seq<wire::WireShredView>,
    slot: u64,
)
    requires
        delivery::whole_slot(data, slot),
        set_wf(set, data, slot),
        is_of(shred, set, data),
    ensures
        fec::placed(shred, slot),
        shred.fec_set_index == set.first,
        fec::same_origin(shred, data[set.first as int]),
        shred.shard.len() == data[set.first as int].shard.len(),
        shred.shard.len() > 0,
        shred.is_data() != shred.is_code(),
        ({
            let at = fec::place(shred, set.first, set.count as int);
            &&& 0 <= at < set.count + set.code.len()
            &&& shred.shard == set_shards(set, data)[at]
            &&& shred.is_data() <==> at < set.count
        }),
{
    let all = data.subrange(set.first as int, set.first + set.count) + set.code;
    let at = fec::place(shred, set.first, set.count as int);
    let first = data[set.first as int];
    assert(covers(set, set.first as int));
    assert(first.fec_set_index == set.first);
    if shred.is_data() {
        let i = shred.index as int;
        assert(data[i].fec_set_index == set.first);
        assert(all[at] == data[i]);
        assert(fec::same_origin(data[i], first));
    } else {
        assert(all[at] == set.code[at - set.count]);
    }
}

/// Two shreds of a set in one place, or of one kind and index, are the same.
proof fn lemma_same_shred(
    a: wire::WireShredView,
    b: wire::WireShredView,
    set: FecSet,
    data: Seq<wire::WireShredView>,
    slot: u64,
)
    requires
        delivery::whole_slot(data, slot),
        set_wf(set, data, slot),
        is_of(a, set, data),
        is_of(b, set, data),
        a.is_code() == b.is_code() && a.index == b.index || fec::place(
            a,
            set.first,
            set.count as int,
        ) == fec::place(b, set.first, set.count as int),
    ensures
        a == b,
{
    lemma_shred_of(a, set, data, slot);
    lemma_shred_of(b, set, data, slot);
    if a.is_code() && b.is_code() {
        let p = fec::place(a, set.first, set.count as int) - set.count;
        let q = fec::place(b, set.first, set.count as int) - set.count;
        if p < q {
            assert(set.code[p].index != set.code[q].index);
        } else if q < p {
            assert(set.code[q].index != set.code[p].index);
        }
    }
}

/// A shred of the set that is not known yet is admitted.
proof fn lemma_admitted(
    state: fec::FecView,
    shred: wire::WireShredView,
    set: FecSet,
    data: Seq<wire::WireShredView>,
    slot: u64,
)
    requires
        delivery::whole_slot(data, slot),
        set_wf(set, data, slot),
        set_state(state, set, data, slot),
        is_of(shred, set, data),
        !state.shreds.contains(shred),
    ensures
        state.admits(shred),
{
    lemma_shred_of(shred, set, data, slot);
    assert forall|i: int| 0 <= i < state.shreds.len() implies {
        &&& fec::same_origin(#[trigger] state.shreds[i], shred)
        &&& !(state.shreds[i].is_code() == shred.is_code() && state.shreds[i].index == shred.index)
        &&& state.shreds[i].is_data() ==> state.shreds[i].index - set.first < set.count
    } by {
        let held = state.shreds[i];
        lemma_shred_of(held, set, data, slot);
        if held.is_code() == shred.is_code() && held.index == shred.index {
            lemma_same_shred(held, shred, set, data, slot);
            assert(state.shreds.contains(shred));
        }
    }
}

/// The indexes of the data shreds among the first `count`.
spec fn indexes(shreds: Seq<wire::WireShredView>, count: int) -> Set<u32>
    decreases count,
{
    if count <= 0 {
        Set::empty()
    } else if shreds[count - 1].is_data() {
        indexes(shreds, count - 1).insert(shreds[count - 1].index)
    } else {
        indexes(shreds, count - 1)
    }
}

proof fn lemma_indexes(shreds: Seq<wire::WireShredView>, count: int)
    requires
        0 <= count <= shreds.len(),
        forall|i: int, j: int|
            #![trigger shreds[i], shreds[j]]
            0 <= i < j < shreds.len() ==> !(shreds[i].is_code() == shreds[j].is_code()
                && shreds[i].index == shreds[j].index),
        forall|i: int|
            #![trigger shreds[i]]
            0 <= i < shreds.len() ==> shreds[i].is_data() != shreds[i].is_code(),
    ensures
        indexes(shreds, count).finite(),
        indexes(shreds, count).len() == shreds.take(count).filter(
            |shred: wire::WireShredView| shred.is_data(),
        ).len(),
        forall|index: u32| #[trigger]
            indexes(shreds, count).contains(index) <==> exists|i: int|
                0 <= i < count && (#[trigger] shreds[i]).is_data() && shreds[i].index == index,
    decreases count,
{
    reveal(Seq::filter);
    if count > 0 {
        lemma_indexes(shreds, count - 1);
        assert(shreds.take(count).drop_last() =~= shreds.take(count - 1));
        let last = shreds[count - 1];
        assert(shreds.take(count).last() == last);
        if last.is_data() {
            assert(!indexes(shreds, count - 1).contains(last.index)) by {
                if indexes(shreds, count - 1).contains(last.index) {
                    let i = choose|i: int|
                        0 <= i < count - 1 && (#[trigger] shreds[i]).is_data() && shreds[i].index
                            == last.index;
                    assert(shreds[i].index == shreds[count - 1].index);
                }
            }
        }
        assert forall|index: u32| #[trigger] indexes(shreds, count).contains(index) <==> exists|
            i: int,
        |
            0 <= i < count && (#[trigger] shreds[i]).is_data() && shreds[i].index == index by {
            if indexes(shreds, count - 1).contains(index) {
                let i = choose|i: int|
                    0 <= i < count - 1 && (#[trigger] shreds[i]).is_data() && shreds[i].index
                        == index;
                assert(shreds[i].is_data() && shreds[i].index == index);
            }
            if last.is_data() && last.index == index {
                assert(shreds[count - 1].index == index);
            }
        }
    }
}

/// A set has as many data shreds as it has room for just where all of them are known.
proof fn lemma_data_count(
    state: fec::FecView,
    set: FecSet,
    data: Seq<wire::WireShredView>,
    slot: u64,
)
    requires
        delivery::whole_slot(data, slot),
        set_wf(set, data, slot),
        set_state(state, set, data, slot),
    ensures
        state.data_count() <= set.count,
        state.data_count() == set.count <==> filled(state, set),
        state.data_count() <= state.shreds.len(),
{
    broadcast use vstd::set_lib::range_set_properties;

    let n = state.shreds.len() as int;
    assert forall|i: int| #![trigger state.shreds[i]] 0 <= i < n implies state.shreds[i].is_data()
        != state.shreds[i].is_code() by {
        lemma_shred_of(state.shreds[i], set, data, slot);
    }
    lemma_indexes(state.shreds, n);
    assert(state.shreds.take(n) =~= state.shreds);
    let known = indexes(state.shreds, n);
    let end = (set.first + set.count) as u32;
    let all = Set::<u32>::range(set.first, end);
    assert forall|index: u32| #[trigger] known.contains(index) implies all.contains(index) by {
        let i = choose|i: int|
            0 <= i < n && (#[trigger] state.shreds[i]).is_data() && state.shreds[i].index == index;
        assert(is_of(state.shreds[i], set, data));
    }
    vstd::set_lib::lemma_len_subset(known, all);
    assert(state.data_count() == known.len());
    if state.data_count() == set.count {
        vstd::set_lib::lemma_subset_equality(known, all);
        assert forall|index: u32| covers(set, index as int) implies #[trigger] state.has(
            false,
            index,
        ) by {
            assert(all.contains(index));
            let i = choose|i: int|
                0 <= i < n && (#[trigger] state.shreds[i]).is_data() && state.shreds[i].index
                    == index;
            assert(state.shreds[i].is_code() == false);
        }
    }
    if filled(state, set) {
        assert forall|index: u32| #[trigger] all.contains(index) implies known.contains(index) by {
            assert(state.has(false, index));
            let i = choose|i: int|
                0 <= i < n && (#[trigger] state.shreds[i]).is_code() == false
                    && state.shreds[i].index == index;
            assert(state.shreds[i].is_data());
        }
        vstd::set_lib::lemma_len_subset(all, known);
    }
    state.shreds.lemma_filter_len(|shred: wire::WireShredView| shred.is_data());
}

/// Where no shred is of code, all are of data.
proof fn lemma_all_data(shreds: Seq<wire::WireShredView>)
    requires
        forall|i: int| #![trigger shreds[i]] 0 <= i < shreds.len() ==> shreds[i].is_data(),
    ensures
        shreds.filter(|shred: wire::WireShredView| shred.is_data()).len() == shreds.len(),
    decreases shreds.len(),
{
    reveal(Seq::filter);
    if shreds.len() > 0 {
        let rest = shreds.drop_last();
        assert forall|i: int| #![trigger rest[i]] 0 <= i < rest.len() implies rest[i].is_data() by {
            assert(rest[i] == shreds[i]);
        }
        lemma_all_data(rest);
        assert(shreds[shreds.len() - 1] == shreds.last());
    }
}

/// Enough shreds of a set give back all its shards.
proof fn lemma_shards(
    state: fec::FecView,
    set: FecSet,
    data: Seq<wire::WireShredView>,
    slot: u64,
)
    requires
        delivery::whole_slot(data, slot),
        set_wf(set, data, slot),
        set_state(state, set, data, slot),
        state.erasure_config is Some,
        state.shreds.len() >= set.count,
    ensures
        fec::recovered_shards(state, set.first) == Some(
            set_shards(set, data).map_values(|shard: Seq<u8>| Some(shard)),
        ),
{
    let n = state.shreds.len() as int;
    let count = set.count as int;
    let full = set_shards(set, data);
    assert(fec::layable(state.shreds, n, set.first, count)) by {
        assert forall|i: int| 0 <= i < n implies (#[trigger] state.shreds[i]).shard.len()
            == state.shreds[0].shard.len() by {
            lemma_shred_of(state.shreds[i], set, data, slot);
            lemma_shred_of(state.shreds[0], set, data, slot);
        }
        assert forall|i: int, j: int|
            #![trigger state.shreds[i], state.shreds[j]]
            0 <= i < j < n implies fec::place(state.shreds[i], set.first, count) != fec::place(
            state.shreds[j],
            set.first,
            count,
        ) by {
            if fec::place(state.shreds[i], set.first, count) == fec::place(
                state.shreds[j],
                set.first,
                count,
            ) {
                lemma_same_shred(state.shreds[i], state.shreds[j], set, data, slot);
            }
        }
    }
    lemma_shred_of(state.shreds[0], set, data, slot);
    fec::lemma_enough_shreds_suffice(state, slot, set.first);
    let there = fec::shards_of(state, set.first)->0;
    assert(full.len() == set.count + set.code.len());
    assert(erasure::part_of(there, full)) by {
        assert forall|i: int|
            #![trigger there[i]]
            0 <= i < there.len() && there[i] is Some implies there[i] == Some(full[i]) by {
            let k = choose|k: int|
                0 <= k < n && fec::place(#[trigger] state.shreds[k], set.first, count) == i;
            lemma_shred_of(state.shreds[k], set, data, slot);
        }
    }
}

/// The data shreds that are missing are recovered, each as it is.
proof fn lemma_missing(
    state: fec::FecView,
    set: FecSet,
    data: Seq<wire::WireShredView>,
    slot: u64,
    count: nat,
)
    requires
        delivery::whole_slot(data, slot),
        set_wf(set, data, slot),
        set_state(state, set, data, slot),
        count <= set.count,
        state.shreds.len() > 0,
    ensures
        ({
            let full = set_shards(set, data).map_values(|shard: Seq<u8>| Some(shard));
            &&& fec::missing_shreds(state, set.first, full, count) matches Some(found)
            &&& forall|k: int|
                #![trigger found[k]]
                0 <= k < found.len() ==> found[k].is_data() && is_of(found[k], set, data)
            &&& forall|index: u32|
                #![trigger state.has(false, index)]
                set.first <= index < set.first + count && !state.has(false, index)
                    ==> slot::indexed(found, index)
        }),
    decreases count,
{
    let full = set_shards(set, data).map_values(|shard: Seq<u8>| Some(shard));
    if count > 0 {
        let at = count - 1;
        lemma_missing(state, set, data, slot, at as nat);
        let before = fec::missing_shreds(state, set.first, full, at as nat)->0;
        let i = set.first + at;
        let index = i as u32;
        let shred = data[i];
        assert(covers(set, i));
        assert(is_of(shred, set, data));
        lemma_shred_of(shred, set, data, slot);
        assert(full[at] == Some(shred.shard));
        assert(repair::parsed(shred));
        let (b, key) = choose|b: Seq<u8>, key: ShredKey| #[trigger]
            wire::wire_shred(b, key) == Some(shred);
        wire::lemma_shard_spells_shred(b, key);
        let first = state.shreds[0];
        lemma_shred_of(first, set, data, slot);
        assert(wire::recovered_shred(
            shred.shard,
            first.slot,
            index,
            set.first,
            first.proof_size,
            first.resigned,
            first.signature,
        ) == Some(shred));
        let found = fec::missing_shreds(state, set.first, full, count)->0;
        assert forall|other: u32|
            #![trigger state.has(false, other)]
            set.first <= other < set.first + count && !state.has(false, other)
                implies slot::indexed(found, other) by {
            if other == index {
                assert(found[found.len() - 1].index == other);
            } else {
                assert(slot::indexed(before, other));
                let k = choose|k: int|
                    0 <= k < before.len() && (#[trigger] before[k]).index == other;
                assert(found[k].index == other);
            }
        }
    }
}

/// What one more shred makes of a set.
proof fn lemma_set_step(
    state: fec::FecView,
    shred: wire::WireShredView,
    set: FecSet,
    data: Seq<wire::WireShredView>,
    slot: u64,
)
    requires
        delivery::whole_slot(data, slot),
        set_wf(set, data, slot),
        set_state(state, set, data, slot),
        collecting(state, set) || filled(state, set),
        is_of(shred, set, data),
        state.admits(shred),
    ensures
        ({
            let added = state.with(shred);
            let after = added.after_recovery(set.first);
            &&& set_state(after, set, data, slot)
            &&& added.wf(slot, set.first)
            &&& added.shreds.len() <= after.shreds.len()
            &&& after.shreds.take(added.shreds.len() as int) == added.shreds
            &&& forall|i: int|
                #![trigger after.shreds[i]]
                added.shreds.len() <= i < after.shreds.len() ==> after.shreds[i].is_data()
            &&& if state.shreds.len() + 1 < set.count {
                collecting(after, set) && after.shreds == state.shreds.push(shred)
            } else {
                filled(after, set)
            }
        }),
{
    let added = state.with(shred);
    let after = added.after_recovery(set.first);
    lemma_shred_of(shred, set, data, slot);
    fec::lemma_with_wf(state, slot, shred);
    fec::lemma_after_recovery_wf(added, slot, set.first);
    fec::lemma_recovery_adds(added, slot, set.first);
    let n = state.shreds.len() as int;
    assert(added.shreds[n] == shred);
    assert(set_state(added, set, data, slot)) by {
        assert forall|i: int|
            #![trigger added.shreds[i]]
            0 <= i < added.shreds.len() implies is_of(added.shreds[i], set, data) by {
            if i < n {
                assert(added.shreds[i] == state.shreds[i]);
            }
        }
        if added.erasure_config is Some {
            if shred.is_code() {
                assert(added.shreds[n].is_code());
            } else {
                let i = choose|i: int|
                    0 <= i < state.shreds.len() && (#[trigger] state.shreds[i]).is_code();
                assert(added.shreds[i].is_code());
            }
        }
    }
    lemma_data_count(added, set, data, slot);
    if added.can_attempt() {
        lemma_shards(added, set, data, slot);
        lemma_missing(added, set, data, slot, set.count);
        let full = set_shards(set, data).map_values(|shard: Seq<u8>| Some(shard));
        let found = fec::missing_shreds(added, set.first, full, set.count)->0;
        assert(after.shreds == added.shreds + found);
        let m = added.shreds.len() as int;
        assert forall|i: int|
            #![trigger after.shreds[i]]
            0 <= i < after.shreds.len() implies is_of(after.shreds[i], set, data) by {
            if i < m {
                assert(after.shreds[i] == added.shreds[i]);
            } else {
                assert(after.shreds[i] == found[i - m]);
            }
        }
        let c = choose|c: int| 0 <= c < m && (#[trigger] added.shreds[c]).is_code();
        assert(after.shreds[c].is_code());
        assert forall|index: u32| covers(set, index as int) implies #[trigger] after.has(
            false,
            index,
        ) by {
            if added.has(false, index) {
                let i = choose|i: int|
                    0 <= i < m && (#[trigger] added.shreds[i]).is_code() == false
                        && added.shreds[i].index == index;
                assert(after.shreds[i] == added.shreds[i]);
            } else {
                assert(slot::indexed(found, index));
                let k = choose|k: int|
                    0 <= k < found.len() && (#[trigger] found[k]).index == index;
                assert(after.shreds[m + k] == found[k]);
            }
        }
        if filled(state, set) {
            lemma_data_count(state, set, data, slot);
        }
    } else {
        assert(after == added);
        if filled(state, set) {
            lemma_data_count(state, set, data, slot);
            assert forall|index: u32| covers(set, index as int) implies #[trigger] after.has(
                false,
                index,
            ) by {
                assert(state.has(false, index));
                let i = choose|i: int|
                    0 <= i < n && (#[trigger] state.shreds[i]).is_code() == false
                        && state.shreds[i].index == index;
                assert(after.shreds[i] == state.shreds[i]);
            }
        } else if n + 1 >= set.count {
            assert(added.data_count() == set.count) by {
                if added.erasure_config is None {
                    assert forall|i: int|
                        #![trigger added.shreds[i]]
                        0 <= i < added.shreds.len() implies added.shreds[i].is_data() by {
                        lemma_shred_of(added.shreds[i], set, data, slot);
                        assert(fec::fits(added.shreds[i], set.first, added.erasure_config));
                    }
                    lemma_all_data(added.shreds);
                }
            }
        }
    }
}

/// What is known of the slot after the first `count` steps.
#[verifier::opaque]
spec fn slot_state(
    state: slot::SlotView,
    sets: Seq<FecSet>,
    data: Seq<wire::WireShredView>,
    slot: u64,
    steps: Seq<Step>,
    count: int,
) -> bool {
    &&& state.wf(slot)
    &&& forall|first: u32| #[trigger]
        state.fec_sets.contains_key(first) ==> exists|s: int|
            0 <= s < sets.len() && (#[trigger] sets[s]).first == first
    &&& forall|s: int|
        #![trigger sets[s]]
        0 <= s < sets.len() ==> known_of(
            slot::fec_set(state.fec_sets, sets[s].first),
            sets[s],
            data,
            slot,
            received(steps, count, sets[s].first),
        )
    &&& state.last_data_index == if state.data_indexes.contains((data.len() - 1) as u32) {
        Some((data.len() - 1) as u32)
    } else {
        None
    }
}

/// What is known of a set of which these shreds were received.
spec fn known_of(
    state: fec::FecView,
    set: FecSet,
    data: Seq<wire::WireShredView>,
    slot: u64,
    shreds: Set<wire::WireShredView>,
) -> bool {
    &&& set_state(state, set, data, slot)
    &&& if shreds.len() < set.count {
        collecting(state, set) && state.shreds.to_set() == shreds
    } else {
        filled(state, set)
    }
}

proof fn lemma_received_finite(steps: Seq<Step>, count: int, first: u32)
    ensures
        received(steps, count, first).finite(),
    decreases count,
{
    if count > 0 {
        lemma_received_finite(steps, count - 1, first);
    }
}

/// The shreds of a set are as many as their set has members.
proof fn lemma_distinct(state: fec::FecView, slot: u64, first: u32)
    requires
        state.wf(slot, first),
    ensures
        state.shreds.to_set().len() == state.shreds.len(),
        state.shreds.to_set().finite(),
{
    assert(state.shreds.no_duplicates()) by {
        assert forall|i: int, j: int|
            0 <= i < state.shreds.len() && 0 <= j < state.shreds.len() && i != j
                implies state.shreds[i] != state.shreds[j] by {
            if i < j {
                assert(fec::same_origin(state.shreds[i], state.shreds[j]));
            } else {
                assert(fec::same_origin(state.shreds[j], state.shreds[i]));
            }
        }
    }
    state.shreds.unique_seq_to_set();
}

/// A step of the set leaves it known as it should be, whether its shred is admitted or not.
proof fn lemma_known_after(
    state: fec::FecView,
    shred: wire::WireShredView,
    set: FecSet,
    data: Seq<wire::WireShredView>,
    slot: u64,
    shreds: Set<wire::WireShredView>,
)
    requires
        delivery::whole_slot(data, slot),
        set_wf(set, data, slot),
        known_of(state, set, data, slot, shreds),
        shreds.finite(),
        is_of(shred, set, data),
    ensures
        state.admits(shred) ==> known_of(
            state.with(shred).after_recovery(set.first),
            set,
            data,
            slot,
            shreds.insert(shred),
        ),
        !state.admits(shred) ==> known_of(state, set, data, slot, shreds.insert(shred)),
        shreds.len() < set.count && shreds.insert(shred).len() >= set.count ==> state.admits(shred),
{
    let after = state.with(shred).after_recovery(set.first);
    let more = shreds.insert(shred);
    lemma_distinct(state, slot, set.first);
    if state.admits(shred) {
        assert(!state.shreds.contains(shred)) by {
            if state.shreds.contains(shred) {
                let i = choose|i: int| 0 <= i < state.shreds.len() && state.shreds[i] == shred;
                assert(state.has(shred.is_code(), shred.index)) by {
                    assert(state.shreds[i].index == shred.index);
                }
            }
        }
        lemma_set_step(state, shred, set, data, slot);
        if shreds.len() < set.count {
            assert(!shreds.contains(shred));
            assert(more.len() == state.shreds.len() + 1);
            if more.len() < set.count {
                assert(after.shreds.to_set() =~= more) by {
                    assert forall|s: wire::WireShredView| after.shreds.contains(s)
                        <==> more.contains(s) by {
                        if more.contains(s) {
                            if s == shred {
                                assert(after.shreds[state.shreds.len() as int] == shred);
                            } else {
                                assert(state.shreds.to_set().contains(s));
                                let i = choose|i: int|
                                    0 <= i < state.shreds.len() && state.shreds[i] == s;
                                assert(after.shreds[i] == s);
                            }
                        }
                        if after.shreds.contains(s) {
                            let i = choose|i: int|
                                0 <= i < after.shreds.len() && after.shreds[i] == s;
                            if i < state.shreds.len() {
                                assert(state.shreds[i] == s);
                                assert(state.shreds.to_set().contains(s));
                            }
                        }
                    }
                }
            }
        } else {
            lemma_data_count(state, set, data, slot);
        }
    } else if shreds.len() < set.count {
        if !state.shreds.contains(shred) {
            lemma_admitted(state, shred, set, data, slot);
        }
        assert(state.shreds.to_set().contains(shred));
        assert(more =~= shreds);
    }
}

/// The set that a shred is of.
proof fn lemma_set_of(
    sets: Seq<FecSet>,
    data: Seq<wire::WireShredView>,
    slot: u64,
    s: int,
    t: int,
    index: int,
)
    requires
        slot_wf(sets, data, slot),
        0 <= s < sets.len(),
        0 <= t < sets.len(),
        covers(sets[s], index),
        covers(sets[t], index),
    ensures
        s == t,
{
    assert(data[index].fec_set_index == sets[s].first);
    assert(data[index].fec_set_index == sets[t].first);
    if s < t {
        assert(sets[s].first != sets[t].first);
    } else if t < s {
        assert(sets[t].first != sets[s].first);
    }
}

/// Every data shred that is known is that of the slot.
proof fn lemma_holder(
    state: slot::SlotView,
    sets: Seq<FecSet>,
    data: Seq<wire::WireShredView>,
    slot: u64,
    steps: Seq<Step>,
    count: int,
    first: u32,
    at: int,
    index: u32,
)
    requires
        slot_wf(sets, data, slot),
        slot_state(state, sets, data, slot, steps, count),
        slot::holds(state.fec_sets, first, at, index),
    ensures
        index < data.len(),
        state.fec_sets[first].shreds[at] == data[index as int],
        exists|s: int|
            0 <= s < sets.len() && (#[trigger] sets[s]).first == first && covers(
                sets[s],
                index as int,
            ),
{
    reveal(slot_state);
    let s = choose|s: int| 0 <= s < sets.len() && (#[trigger] sets[s]).first == first;
    let held = state.fec_sets[first].shreds[at];
    assert(slot::fec_set(state.fec_sets, sets[s].first) == state.fec_sets[first]);
    assert(known_of(
        slot::fec_set(state.fec_sets, sets[s].first),
        sets[s],
        data,
        slot,
        received(steps, count, sets[s].first),
    ));
    assert(is_of(held, sets[s], data));
}

/// A slot is complete just where enough of each set was received; its data shreds are then those of
/// the slot.
proof fn lemma_complete(
    state: slot::SlotView,
    sets: Seq<FecSet>,
    data: Seq<wire::WireShredView>,
    slot: u64,
    steps: Seq<Step>,
    count: int,
)
    requires
        slot_wf(sets, data, slot),
        slot_state(state, sets, data, slot, steps, count),
    ensures
        state.complete() <==> suffices(sets, steps, count),
        state.complete() ==> state.last_data_index == Some((data.len() - 1) as u32) && slot::block(
            state.fec_sets,
            (data.len() - 1) as u32,
        ) == delivery::spelled(data),
{
    reveal(slot_state);
    let n = data.len() as int;
    if suffices(sets, steps, count) {
        assert forall|index: u32| index < n implies #[trigger] state.data_indexes.contains(
            index,
        ) by {
            assert(data[index as int].is_data());
            let s = choose|s: int|
                0 <= s < sets.len() && covers(#[trigger] sets[s], index as int);
            let known = slot::fec_set(state.fec_sets, sets[s].first);
            assert(filled(known, sets[s]));
            assert(known.has(false, index));
            let i = choose|i: int|
                0 <= i < known.shreds.len() && (#[trigger] known.shreds[i]).is_code() == false
                    && known.shreds[i].index == index;
            lemma_shred_of(known.shreds[i], sets[s], data, slot);
            assert(slot::holds(state.fec_sets, sets[s].first, i, index));
        }
        assert(state.data_indexes.contains((n - 1) as u32));
        assert(state.complete());
    }
    if state.complete() {
        let last = (n - 1) as u32;
        assert(state.last_data_index == Some(last));
        assert forall|s: int| #![trigger sets[s]] 0 <= s < sets.len() implies received(
            steps,
            count,
            sets[s].first,
        ).len() >= sets[s].count by {
            let known = slot::fec_set(state.fec_sets, sets[s].first);
            assert(filled(known, sets[s])) by {
                assert forall|index: u32| covers(sets[s], index as int) implies #[trigger] known.has(
                    false,
                    index,
                ) by {
                    assert(state.data_indexes.contains(index));
                    let (first, at) = choose|first: u32, at: int|
                        slot::holds(state.fec_sets, first, at, index);
                    lemma_holder(state, sets, data, slot, steps, count, first, at, index);
                    let t = choose|t: int|
                        0 <= t < sets.len() && (#[trigger] sets[t]).first == first && covers(
                            sets[t],
                            index as int,
                        );
                    lemma_set_of(sets, data, slot, s, t, index as int);
                    assert(known.shreds[at].is_code() == false);
                }
            }
            assert(known_of(
                known,
                sets[s],
                data,
                slot,
                received(steps, count, sets[s].first),
            ));
            lemma_data_count(known, sets[s], data, slot);
        }
        assert forall|i: int| 0 <= i < n implies slot::data_shred(state.fec_sets, i as u32) == Some(
            #[trigger] data[i],
        ) by {
            let index = i as u32;
            assert(state.data_indexes.contains(index));
            let (first, at) = choose|first: u32, at: int|
                slot::holds(state.fec_sets, first, at, index);
            assert forall|other: u32, there: int| #[trigger]
                slot::holds(state.fec_sets, other, there, index)
                    implies state.fec_sets[other].shreds[there] == data[i] by {
                lemma_holder(state, sets, data, slot, steps, count, other, there, index);
            }
            delivery::lemma_only_holder(state.fec_sets, index, data[i], first, at);
        }
        delivery::lemma_spells(state.fec_sets, data, n);
    }
}

/// What a step makes of the slot.
proof fn lemma_slot_step(
    state: slot::SlotView,
    sets: Seq<FecSet>,
    data: Seq<wire::WireShredView>,
    slot: u64,
    steps: Seq<Step>,
    at: int,
    s: int,
)
    requires
        slot_wf(sets, data, slot),
        0 <= at < steps.len(),
        slot_state(state, sets, data, slot, steps, at),
        0 <= s < sets.len(),
        is_of(steps[at].shred, sets[s], data),
    ensures
        ({
            let step = steps[at];
            let known = slot::fec_set(state.fec_sets, sets[s].first);
            let tried = state.with(step.shred, step.received_at).after_recovery(
                sets[s].first,
                step.recovery_ns,
            );
            &&& step.shred.fec_set_index == sets[s].first
            &&& fec::placed(step.shred, slot)
            &&& known.admits(step.shred) ==> slot_state(tried, sets, data, slot, steps, at + 1)
            &&& !known.admits(step.shred) ==> slot_state(state, sets, data, slot, steps, at + 1)
            &&& suffices(sets, steps, at + 1) && !suffices(sets, steps, at) ==> known.admits(
                step.shred,
            )
        }),
{
    reveal(slot_state);
    let step = steps[at];
    let shred = step.shred;
    let set = sets[s];
    let first = set.first;
    let known = slot::fec_set(state.fec_sets, first);
    let shreds = received(steps, at, first);
    lemma_shred_of(shred, set, data, slot);
    assert(known_of(known, set, data, slot, shreds));
    lemma_received_finite(steps, at, first);
    lemma_known_after(known, shred, set, data, slot, shreds);
    assert(received(steps, at + 1, first) == shreds.insert(shred));
    assert forall|t: int| #![trigger sets[t]] 0 <= t < sets.len() && t != s implies sets[t].first
        != first && received(steps, at + 1, sets[t].first) == received(
        steps,
        at,
        sets[t].first,
    ) by {
        if s < t {
            assert(sets[s].first != sets[t].first);
        } else {
            assert(sets[t].first != sets[s].first);
        }
    }
    if suffices(sets, steps, at + 1) && !suffices(sets, steps, at) {
        let t = choose|t: int|
            #![trigger sets[t]]
            0 <= t < sets.len() && received(steps, at, sets[t].first).len() < sets[t].count;
        assert(received(steps, at + 1, sets[t].first).len() >= sets[t].count);
        assert(t == s);
    }
    if known.admits(shred) {
        lemma_slot_taken(state, sets, data, slot, steps, at, s);
    }
}

proof fn lemma_slot_taken(
    state: slot::SlotView,
    sets: Seq<FecSet>,
    data: Seq<wire::WireShredView>,
    slot: u64,
    steps: Seq<Step>,
    at: int,
    s: int,
)
    requires
        slot_wf(sets, data, slot),
        0 <= at < steps.len(),
        slot_state(state, sets, data, slot, steps, at),
        0 <= s < sets.len(),
        is_of(steps[at].shred, sets[s], data),
        slot::fec_set(state.fec_sets, sets[s].first).admits(steps[at].shred),
        steps[at].shred.fec_set_index == sets[s].first,
        forall|t: int|
            #![trigger sets[t]]
            0 <= t < sets.len() && t != s ==> sets[t].first != sets[s].first && received(
                steps,
                at + 1,
                sets[t].first,
            ) == received(steps, at, sets[t].first),
        known_of(
            slot::fec_set(state.fec_sets, sets[s].first).with(steps[at].shred).after_recovery(
                sets[s].first,
            ),
            sets[s],
            data,
            slot,
            received(steps, at + 1, sets[s].first),
        ),
    ensures
        ({
            let step = steps[at];
            let tried = state.with(step.shred, step.received_at).after_recovery(
                sets[s].first,
                step.recovery_ns,
            );
            slot_state(tried, sets, data, slot, steps, at + 1)
        }),
{
    reveal(slot_state);
    let step = steps[at];
    let shred = step.shred;
    let set = sets[s];
    let first = set.first;
    let known = slot::fec_set(state.fec_sets, first);
    let added = state.with(shred, step.received_at);
    let tried = added.after_recovery(first, step.recovery_ns);
    let now = added.fec_sets[first];
    let after = now.after_recovery(first);
    assert(now == known.with(shred));
    assert(known_of(known, set, data, slot, received(steps, at, first)));
    lemma_set_step(known, shred, set, data, slot);
    lemma_shred_of(shred, set, data, slot);
    slot::lemma_with_wf(state, slot, shred, step.received_at);
    slot::lemma_recovery_wf(added, slot, first, step.recovery_ns);
    assert forall|f: u32| #[trigger] tried.fec_sets.contains_key(f) implies exists|t: int|
        0 <= t < sets.len() && (#[trigger] sets[t]).first == f by {
        if f == first {
            assert(sets[s].first == f);
        } else {
            assert(state.fec_sets.contains_key(f));
        }
    }
    assert forall|t: int| #![trigger sets[t]] 0 <= t < sets.len() implies known_of(
        slot::fec_set(tried.fec_sets, sets[t].first),
        sets[t],
        data,
        slot,
        received(steps, at + 1, sets[t].first),
    ) by {
        if t != s {
            assert(slot::fec_set(tried.fec_sets, sets[t].first) == slot::fec_set(
                state.fec_sets,
                sets[t].first,
            ));
        } else {
            assert(slot::fec_set(tried.fec_sets, first) == after);
        }
    }
    let last = (data.len() - 1) as u32;
    let m = now.shreds.len() as int;
    let found = after.shreds.skip(m);
    assert forall|k: int| #![trigger found[k]] 0 <= k < found.len() implies found[k].is_data()
        && found[k].index < data.len() && found[k] == data[found[k].index as int] by {
        assert(found[k] == after.shreds[m + k]);
        assert(is_of(after.shreds[m + k], set, data));
    }
    assert(added.last_data_index == if added.data_indexes.contains(last) {
        Some(last)
    } else {
        None
    });
    if tried.data_indexes.contains(last) {
        if !added.data_indexes.contains(last) {
            let k = choose|k: int| 0 <= k < found.len() && (#[trigger] found[k]).index == last;
            assert(found[k].last_in_slot());
        }
        repair::lemma_end_is_known(added.last_data_index, found);
    }
    slot::lemma_last_flagged(added.last_data_index, found);
    if tried.last_data_index is Some && tried.last_data_index != added.last_data_index {
        let end = tried.last_data_index->0;
        let k = choose|k: int|
            0 <= k < found.len() && (#[trigger] found[k]).index == end && found[k].last_in_slot();
        assert(found[k] == data[found[k].index as int]);
        assert(end == last);
    }
    if tried.last_data_index is Some {
        assert(tried.data_indexes.contains(last));
    }
}

/// What a source knows of a slot.
spec fn slot_of(view: SourceView, slot: u64) -> slot::SlotView {
    view.slot(slot, 0)
}

/// Whether the slot is followed, and known as it should be after the first `count` steps.
#[verifier::opaque]
spec fn follows(
    view: SourceView,
    source: SourceId,
    sets: Seq<FecSet>,
    data: Seq<wire::WireShredView>,
    slot: u64,
    steps: Seq<Step>,
    count: int,
) -> bool {
    let now = reconstruction::view_after(view, source, steps, count);
    &&& !now.is_done(slot)
    &&& slot_state(slot_of(now, slot), sets, data, slot, steps, count)
}

/// Whether the step at `at` reports nothing.
#[verifier::opaque]
spec fn silent_at(view: SourceView, source: SourceId, steps: Seq<Step>, at: int) -> bool {
    reconstruction::reported_at(view, source, steps, at) is None
}

/// While not enough was received, nothing is reported of the slot.
proof fn lemma_not_yet(
    view: SourceView,
    source: SourceId,
    sets: Seq<FecSet>,
    data: Seq<wire::WireShredView>,
    slot: u64,
    steps: Seq<Step>,
    count: int,
)
    requires
        delivery::untouched(view, slot),
        slot_wf(sets, data, slot),
        0 <= count <= steps.len(),
        forall|k: int|
            #![trigger steps[k]]
            0 <= k < steps.len() ==> is_of_slot(steps[k].shred, sets, data),
        forall|k: int| 0 <= k <= count ==> !#[trigger] suffices(sets, steps, k),
    ensures
        follows(view, source, sets, data, slot, steps, count),
        forall|k: int| 0 <= k < count ==> #[trigger] silent_at(view, source, steps, k),
    decreases count,
{
    if count == 0 {
        assert(follows(view, source, sets, data, slot, steps, 0)) by {
            reveal(follows);
            lemma_nothing_known(sets, data, slot, steps);
            assert(slot_of(view, slot) == slot::SlotView::empty(0));
        }
    } else {
        let at = count - 1;
        lemma_not_yet(view, source, sets, data, slot, steps, at);
        assert(!suffices(sets, steps, count));
        assert(!suffices(sets, steps, at));
        assert(is_of_slot(steps[at].shred, sets, data));
        lemma_next(view, source, sets, data, slot, steps, at);
    }
}

proof fn lemma_next(
    view: SourceView,
    source: SourceId,
    sets: Seq<FecSet>,
    data: Seq<wire::WireShredView>,
    slot: u64,
    steps: Seq<Step>,
    at: int,
)
    requires
        slot_wf(sets, data, slot),
        0 <= at < steps.len(),
        is_of_slot(steps[at].shred, sets, data),
        follows(view, source, sets, data, slot, steps, at),
        !suffices(sets, steps, at),
        !suffices(sets, steps, at + 1),
    ensures
        follows(view, source, sets, data, slot, steps, at + 1),
        silent_at(view, source, steps, at),
{
    reveal(follows);
    reveal(silent_at);
    lemma_source_step(view, source, sets, data, slot, steps, at);
}

/// Whether a shred is one of a slot's.
pub open spec fn is_of_slot(
    shred: wire::WireShredView,
    sets: Seq<FecSet>,
    data: Seq<wire::WireShredView>,
) -> bool {
    exists|s: int| 0 <= s < sets.len() && is_of(shred, #[trigger] sets[s], data)
}

proof fn lemma_nothing_known(
    sets: Seq<FecSet>,
    data: Seq<wire::WireShredView>,
    slot: u64,
    steps: Seq<Step>,
)
    requires
        slot_wf(sets, data, slot),
    ensures
        slot_state(slot::SlotView::empty(0), sets, data, slot, steps, 0),
{
    reveal(slot_state);
    let none = fec::FecView::empty();
    assert(none.shreds.to_set() =~= Set::empty());
    assert forall|s: int| #![trigger sets[s]] 0 <= s < sets.len() implies known_of(
        none,
        sets[s],
        data,
        slot,
        Set::empty(),
    ) by {
        assert(set_wf(sets[s], data, slot));
    }
    assert(slot::SlotView::empty(0).wf(slot));
}

/// What a step makes of the source.
proof fn lemma_source_step(
    view: SourceView,
    source: SourceId,
    sets: Seq<FecSet>,
    data: Seq<wire::WireShredView>,
    slot: u64,
    steps: Seq<Step>,
    at: int,
)
    requires
        slot_wf(sets, data, slot),
        0 <= at < steps.len(),
        is_of_slot(steps[at].shred, sets, data),
        ({
            let now = reconstruction::view_after(view, source, steps, at);
            &&& !now.is_done(slot)
            &&& slot_state(slot_of(now, slot), sets, data, slot, steps, at)
        }),
        !suffices(sets, steps, at),
    ensures
        ({
            let next = reconstruction::view_after(view, source, steps, at + 1);
            let reported = reconstruction::reported_at(view, source, steps, at);
            if suffices(sets, steps, at + 1) && delivery::spelled(data) is Some {
                let decoded = delivery::spelled(data)->0;
                &&& reported matches Some(event)
                &&& event.source == source
                &&& event.slot == slot
                &&& event.expected_data_shreds == data.len()
                &&& event.entries == decoded.entries
                &&& event.transactions == decoded.transactions
            } else {
                &&& reported is None
                &&& !next.is_done(slot)
                &&& slot_state(slot_of(next, slot), sets, data, slot, steps, at + 1)
            }
        }),
{
    reveal(slot_state);
    let now = reconstruction::view_after(view, source, steps, at);
    let step = steps[at];
    let shred = step.shred;
    let s = choose|s: int| 0 <= s < sets.len() && is_of(shred, #[trigger] sets[s], data);
    let kept = now.pruned(slot);
    let state = kept.slot(slot, step.received_at);
    let before = slot_of(now, slot);
    assert(set_wf(sets[s], data, slot));
    lemma_shred_of(shred, sets[s], data, slot);
    assert(state.fec_sets == before.fec_sets && state.data_indexes == before.data_indexes
        && state.last_data_index == before.last_data_index);
    assert(slot_state(state, sets, data, slot, steps, at)) by {
        if !now.slots.contains_key(slot) {
            assert(state == slot::SlotView::empty(step.received_at));
            assert(state.wf(slot));
        }
    }
    lemma_slot_step(state, sets, data, slot, steps, at, s);
    if kept.accepts(shred, step.received_at) {
        let tried = state.with(shred, step.received_at).after_recovery(
            sets[s].first,
            step.recovery_ns,
        );
        lemma_complete(tried, sets, data, slot, steps, at + 1);
        let after = state.after(shred, step.received_at, step.recovery_ns, step.decoding_ns).0;
        if tried.complete() {
            assert(after == tried.after_decoding(step.decoding_ns));
            slot::lemma_decoding_wf(tried, slot, step.decoding_ns);
            assert(slot_state(after, sets, data, slot, steps, at + 1));
        }
    }
}

/// A slot is reported on the first shred with which enough was received of each of its FEC sets, if
/// its data shreds spell a block, and on none before. It does not matter which shreds of a set they
/// are, in what order they come, whether some come again, or how the sets are mixed; the block that
/// is reported is the one that the data shreds spell.
pub proof fn lemma_reported_as_soon_as_it_suffices(
    view: SourceView,
    source: SourceId,
    sets: Seq<FecSet>,
    data: Seq<wire::WireShredView>,
    slot: u64,
    steps: Seq<Step>,
    at: int,
)
    requires
        delivery::untouched(view, slot),
        slot_wf(sets, data, slot),
        0 <= at < steps.len(),
        forall|k: int|
            #![trigger steps[k]]
            0 <= k < steps.len() ==> is_of_slot(steps[k].shred, sets, data),
        forall|k: int| 0 <= k <= at ==> !#[trigger] suffices(sets, steps, k),
    ensures
        forall|k: int|
            0 <= k < at ==> #[trigger] reconstruction::reported_at(view, source, steps, k) is None,
        suffices(sets, steps, at + 1) && delivery::spelled(data) is Some
            <==> reconstruction::reported_at(view, source, steps, at) is Some,
        reconstruction::reported_at(view, source, steps, at) matches Some(event) ==> {
            let decoded = delivery::spelled(data)->0;
            &&& event.source == source
            &&& event.slot == slot
            &&& event.expected_data_shreds == data.len()
            &&& event.entries == decoded.entries
            &&& event.transactions == decoded.transactions
        },
{
    lemma_not_yet(view, source, sets, data, slot, steps, at);
    assert(!suffices(sets, steps, at));
    assert(is_of_slot(steps[at].shred, sets, data));
    assert forall|k: int| 0 <= k < at implies #[trigger] reconstruction::reported_at(
        view,
        source,
        steps,
        k,
    ) is None by {
        assert(silent_at(view, source, steps, k));
        reveal(silent_at);
    }
    reveal(follows);
    lemma_source_step(view, source, sets, data, slot, steps, at);
}

} // verus!
