//! One slot from one source: the FEC sets that are known of it, and the block that they spell.

use std::collections::{HashMap, HashSet};

use vstd::prelude::*;

use crate::clock;
use crate::entries::{self, DecodedBlock};
use crate::fec::{self, FecAssembly};
use crate::keys;
use crate::wire::{self, WireShred, MAX_DATA_SHREDS_PER_SLOT};

verus! {

broadcast use vstd::std_specs::hash::group_hash_axioms;

pub open spec fn saturated(value: int, most: int) -> int {
    if value <= most {
        value
    } else {
        most
    }
}

/// What is known of a slot.
#[verifier::ext_equal]
pub struct SlotView {
    pub first_received_at: u64,
    pub last_received_at: u64,
    /// The indexes of the data shreds, received and recovered.
    pub data_indexes: Set<u32>,
    pub fec_sets: Map<u32, fec::FecView>,
    /// The index of the data shred that the slot ends with, once it is known.
    pub last_data_index: Option<u32>,
    pub received_shreds: u32,
    pub recovered_data_shreds: u32,
    pub fec_sets_recovered: u32,
    pub reconstruction_cpu_ns: u64,
}

/// An FEC set of a slot: an empty one where no shred of it is known.
pub open spec fn fec_set(fec_sets: Map<u32, fec::FecView>, fec_set_index: u32) -> fec::FecView {
    if fec_sets.contains_key(fec_set_index) {
        fec_sets[fec_set_index]
    } else {
        fec::FecView::empty()
    }
}

/// Whether the shred at `at` in an FEC set is the data shred with this index.
pub open spec fn holds(
    fec_sets: Map<u32, fec::FecView>,
    fec_set_index: u32,
    at: int,
    index: u32,
) -> bool {
    &&& fec_sets.contains_key(fec_set_index)
    &&& 0 <= at < fec_sets[fec_set_index].shreds.len()
    &&& fec_sets[fec_set_index].shreds[at].is_data()
    &&& fec_sets[fec_set_index].shreds[at].index == index
}

/// Whether the shred at `at` in an FEC set is the data shred with this index, and ends the slot.
pub open spec fn ends(
    fec_sets: Map<u32, fec::FecView>,
    fec_set_index: u32,
    at: int,
    index: u32,
) -> bool {
    &&& holds(fec_sets, fec_set_index, at, index)
    &&& fec_sets[fec_set_index].shreds[at].last_in_slot()
}

/// The data shred with this index. Should several FEC sets have one, the shred is that of the set
/// with the highest index.
#[verifier::opaque]
pub open spec fn data_shred(fec_sets: Map<u32, fec::FecView>, index: u32) -> Option<
    wire::WireShredView,
> {
    if exists|set: u32, at: int| holds(fec_sets, set, at, index) {
        let (set, at) = choose|set: u32, at: int|
            {
                &&& holds(fec_sets, set, at, index)
                &&& forall|other: u32, there: int|
                    holds(fec_sets, other, there, index) ==> other <= set
            };
        Some(fec_sets[set].shreds[at])
    } else {
        None
    }
}

/// Takes one more data shred into what the data shreds before it amount to: the ledger bytes behind
/// the last end of a batch, and the numbers of entries and transactions in the batches before. A
/// batch of no bytes has no entries.
pub open spec fn taken(sofar: (Seq<u8>, int, int), shred: wire::WireShredView) -> Option<
    (Seq<u8>, int, int),
> {
    let (batch, entries, transactions) = sofar;
    match shred.data {
        Some(data) => {
            let longer = batch + data;
            if !shred.data_complete() || longer.len() == 0 {
                Some((longer, entries, transactions))
            } else {
                match entries::entry_batch(longer) {
                    Some((more_entries, more_transactions)) => Some(
                        (
                            Seq::empty(),
                            saturated(entries + more_entries, u64::MAX as int),
                            saturated(transactions + more_transactions, u64::MAX as int),
                        ),
                    ),
                    None => None,
                }
            }
        },
        None => None,
    }
}

/// What the data shreds below `count` amount to.
pub open spec fn decoded_below(fec_sets: Map<u32, fec::FecView>, count: nat) -> Option<
    (Seq<u8>, int, int),
>
    decreases count,
{
    if count == 0 {
        Some((Seq::empty(), 0, 0))
    } else {
        match (
            decoded_below(fec_sets, (count - 1) as nat),
            data_shred(fec_sets, (count - 1) as u32),
        ) {
            (Some(sofar), Some(shred)) => taken(sofar, shred),
            _ => None,
        }
    }
}

/// The block that the data shreds up to `last_index` spell: batches of entries, and no bytes behind
/// the last of them.
pub open spec fn block(fec_sets: Map<u32, fec::FecView>, last_index: u32) -> Option<DecodedBlock> {
    match decoded_below(fec_sets, (last_index + 1) as nat) {
        Some((batch, entries, transactions)) => if batch.len() == 0 {
            Some(DecodedBlock { entries: entries as u64, transactions: transactions as u64 })
        } else {
            None
        },
        None => None,
    }
}

/// The index of the last of `shreds` that ends the slot, or else `known`.
pub open spec fn last_flagged(known: Option<u32>, shreds: Seq<wire::WireShredView>) -> Option<u32>
    decreases shreds.len(),
{
    if shreds.len() == 0 {
        known
    } else if shreds.last().last_in_slot() {
        Some(shreds.last().index)
    } else {
        last_flagged(known, shreds.drop_last())
    }
}

/// Whether one of `shreds` has this index.
pub open spec fn indexed(shreds: Seq<wire::WireShredView>, index: u32) -> bool {
    exists|i: int| 0 <= i < shreds.len() && (#[trigger] shreds[i]).index == index
}

impl SlotView {
    pub open spec fn empty(received_at: u64) -> SlotView {
        SlotView {
            first_received_at: received_at,
            last_received_at: received_at,
            data_indexes: Set::empty(),
            fec_sets: Map::empty(),
            last_data_index: None,
            received_shreds: 0,
            recovered_data_shreds: 0,
            fec_sets_recovered: 0,
            reconstruction_cpu_ns: 0,
        }
    }

    /// Every FEC set is in order, the indexes are those of the data shreds in them, the index that
    /// the slot ends with is that of a shred that says so, and the times and counts are those of
    /// shreds that were received.
    pub open spec fn wf(self, slot: u64) -> bool {
        &&& forall|set: u32| #[trigger]
            self.fec_sets.contains_key(set) ==> self.fec_sets[set].wf(slot, set)
        &&& forall|index: u32|
            #![trigger self.data_indexes.contains(index)]
            self.data_indexes.contains(index) <==> exists|set: u32, at: int|
                holds(self.fec_sets, set, at, index)
        &&& self.last_data_index matches Some(last) ==> self.data_indexes.contains(last) && exists|
            set: u32,
            at: int,
        | ends(self.fec_sets, set, at, last)
        &&& self.first_received_at <= self.last_received_at
        &&& self.counts_suffice()
    }

    /// Every data shred was counted as it came to be known, unless a count is at its end.
    pub open spec fn counts_suffice(self) -> bool {
        ||| self.received_shreds == u32::MAX
        ||| self.recovered_data_shreds == u32::MAX
        ||| self.data_indexes.len() <= self.received_shreds + self.recovered_data_shreds
    }

    /// The slot with one more shred that was received.
    pub open spec fn with(self, shred: wire::WireShredView, received_at: u64) -> SlotView {
        SlotView {
            first_received_at: if received_at < self.first_received_at {
                received_at
            } else {
                self.first_received_at
            },
            last_received_at: if received_at > self.last_received_at {
                received_at
            } else {
                self.last_received_at
            },
            data_indexes: if shred.is_data() {
                self.data_indexes.insert(shred.index)
            } else {
                self.data_indexes
            },
            fec_sets: self.fec_sets.insert(
                shred.fec_set_index,
                fec_set(self.fec_sets, shred.fec_set_index).with(shred),
            ),
            last_data_index: if shred.last_in_slot() {
                Some(shred.index)
            } else {
                self.last_data_index
            },
            received_shreds: saturated(self.received_shreds + 1, u32::MAX as int) as u32,
            ..self
        }
    }

    /// The slot after a try at recovery in one FEC set, in which computing the shards took
    /// `spent` nanoseconds.
    pub open spec fn after_recovery(self, set: u32, spent: u64) -> SlotView {
        let before = self.fec_sets[set];
        let after = before.after_recovery(set);
        let found = after.shreds.skip(before.shreds.len() as int);
        SlotView {
            data_indexes: self.data_indexes.union(Set::new(|index: u32| indexed(found, index))),
            fec_sets: self.fec_sets.insert(set, after),
            last_data_index: last_flagged(self.last_data_index, found),
            recovered_data_shreds: saturated(
                self.recovered_data_shreds + found.len(),
                u32::MAX as int,
            ) as u32,
            fec_sets_recovered: if after.recovered_data && !before.recovered_data {
                saturated(self.fec_sets_recovered + 1, u32::MAX as int) as u32
            } else {
                self.fec_sets_recovered
            },
            reconstruction_cpu_ns: if before.reconstructs(set) {
                saturated(self.reconstruction_cpu_ns + spent, u64::MAX as int) as u64
            } else {
                self.reconstruction_cpu_ns
            },
            ..self
        }
    }

    /// Whether every data shred is known up to the one that ends the slot.
    pub open spec fn complete(self) -> bool {
        &&& self.last_data_index matches Some(last) && last < MAX_DATA_SHREDS_PER_SLOT
        &&& forall|index: u32|
            index <= self.last_data_index->0 ==> #[trigger] self.data_indexes.contains(index)
    }

    /// The slot after `spent` nanoseconds of decoding.
    pub open spec fn after_decoding(self, spent: u64) -> SlotView {
        SlotView {
            reconstruction_cpu_ns: saturated(
                self.reconstruction_cpu_ns + spent,
                u64::MAX as int,
            ) as u64,
            ..self
        }
    }

    /// What a shred that was received leaves of the slot, and the block that the slot's shreds now
    /// spell. Computing shards took `recovery_ns`, and decoding `decoding_ns`.
    pub open spec fn after(
        self,
        shred: wire::WireShredView,
        received_at: u64,
        recovery_ns: u64,
        decoding_ns: u64,
    ) -> (SlotView, Option<DecodedBlock>) {
        let state = self.with(shred, received_at).after_recovery(shred.fec_set_index, recovery_ns);
        if state.complete() {
            (state.after_decoding(decoding_ns), block(state.fec_sets, state.last_data_index->0))
        } else {
            (state, None)
        }
    }
}

/// A slot.
pub struct SlotAssembly {
    pub first_received_at: u64,
    pub last_received_at: u64,
    pub data_indexes: HashSet<u32>,
    pub fec_sets: HashMap<u32, FecAssembly>,
    pub last_data_index: Option<u32>,
    pub received_shreds: u32,
    pub recovered_data_shreds: u32,
    pub fec_sets_recovered: u32,
    pub reconstruction_cpu_ns: u64,
}

impl View for SlotAssembly {
    type V = SlotView;

    open spec fn view(&self) -> SlotView {
        SlotView {
            first_received_at: self.first_received_at,
            last_received_at: self.last_received_at,
            data_indexes: self.data_indexes@,
            fec_sets: self.fec_sets@.map_values(|set: FecAssembly| set@),
            last_data_index: self.last_data_index,
            received_shreds: self.received_shreds,
            recovered_data_shreds: self.recovered_data_shreds,
            fec_sets_recovered: self.fec_sets_recovered,
            reconstruction_cpu_ns: self.reconstruction_cpu_ns,
        }
    }
}

impl SlotAssembly {
    pub open spec fn wf(&self, slot: u64) -> bool {
        &&& forall|set: u32| #[trigger]
            self.fec_sets@.contains_key(set) ==> self.fec_sets@[set].wf(slot, set)
        &&& self@.wf(slot)
    }

    pub fn new(received_at: u64) -> (state: SlotAssembly)
        ensures
            state@ == SlotView::empty(received_at),
            forall|slot: u64| #[trigger] state.wf(slot),
    {
        let state = SlotAssembly {
            first_received_at: received_at,
            last_received_at: received_at,
            data_indexes: HashSet::new(),
            fec_sets: HashMap::new(),
            last_data_index: None,
            received_shreds: 0,
            recovered_data_shreds: 0,
            fec_sets_recovered: 0,
            reconstruction_cpu_ns: 0,
        };
        assert(state@.fec_sets =~= Map::empty());
        assert(state@.data_indexes =~= Set::empty());
        state
    }

    /// Whether the shred's FEC set admits it.
    pub fn admits(&self, shred: &WireShred, slot: u64) -> (admitted: bool)
        requires
            self.wf(slot),
            shred@.is_data() ==> shred.fec_set_index <= shred.index,
        ensures
            admitted == fec_set(self@.fec_sets, shred.fec_set_index).admits(shred@),
    {
        match self.fec_sets.get(&shred.fec_set_index) {
            Some(set) => set.admits(shred, slot),
            None => true,
        }
    }

    /// Takes in a shred that was received.
    pub fn add(&mut self, shred: WireShred, received_at: u64, slot: u64)
        requires
            old(self).wf(slot),
            fec_set(old(self)@.fec_sets, shred.fec_set_index).admits(shred@),
            shred.wf(),
            fec::placed(shred@, slot),
        ensures
            final(self)@ == old(self)@.with(shred@, received_at),
            final(self).wf(slot),
    {
        let ghost before = self@;
        let ghost view = shred@;
        let set_index: u32 = shred.fec_set_index;
        let mut set: FecAssembly = match self.fec_sets.remove(&set_index) {
            Some(set) => set,
            None => FecAssembly::new(),
        };
        self.received_shreds = self.received_shreds.saturating_add(1);
        if received_at < self.first_received_at {
            self.first_received_at = received_at;
        }
        if received_at > self.last_received_at {
            self.last_received_at = received_at;
        }
        if shred.is_data() {
            self.data_indexes.insert(shred.index);
            if shred.last_in_slot() {
                self.last_data_index = Some(shred.index);
            }
        }
        let ghost known = set@;
        assert(known == fec_set(before.fec_sets, set_index));
        set.add(shred, slot);
        self.fec_sets.insert(set_index, set);
        proof {
            assert(self@.fec_sets =~= before.fec_sets.insert(set_index, known.with(view)));
            lemma_with_wf(before, slot, view, received_at);
        }
    }

    /// Tries to recover what is missing in one FEC set.
    pub fn try_recovery(&mut self, set_index: u32, slot: u64)
        requires
            old(self).wf(slot),
            old(self)@.fec_sets.contains_key(set_index),
        ensures
            exists|spent: u64|
                final(self)@ == #[trigger] old(self)@.after_recovery(set_index, spent),
            final(self).wf(slot),
    {
        let ghost before = self@;
        let mut set: FecAssembly = match self.fec_sets.remove(&set_index) {
            Some(set) => set,
            None => return,
        };
        let ghost known = set@;
        assert(known == before.fec_sets[set_index]);
        let had_recovered: bool = set.recovered_data;
        let known_shreds: usize = set.shreds.len();
        let (spent, recovered): (Option<u64>, usize) = set.try_recovery(slot, set_index);
        if let Some(spent) = spent {
            self.reconstruction_cpu_ns = self.reconstruction_cpu_ns.saturating_add(spent);
        }
        let ghost after = set@;
        let ghost found = after.shreds.skip(known.shreds.len() as int);
        note_recovered(&set, known_shreds, &mut self.data_indexes, &mut self.last_data_index);
        self.recovered_data_shreds = self.recovered_data_shreds.saturating_add(recovered as u32);
        if set.recovered_data && !had_recovered {
            self.fec_sets_recovered = self.fec_sets_recovered.saturating_add(1);
        }
        self.fec_sets.insert(set_index, set);
        proof {
            let ns: u64 = match spent {
                Some(ns) => ns,
                None => 0,
            };
            assert(self@.fec_sets =~= before.fec_sets.insert(set_index, after));
            assert(self@ =~= before.after_recovery(set_index, ns));
            lemma_recovery_wf(before, slot, set_index, ns);
        }
    }

    /// The index that the slot ends with, if every data shred up to it is known.
    pub fn complete_up_to(&self) -> (last: Option<u32>)
        ensures
            match last {
                Some(last) => self@.complete() && self@.last_data_index == Some(last),
                None => !self@.complete(),
            },
    {
        let last: u32 = match self.last_data_index {
            Some(last) => last,
            None => return None,
        };
        if last >= MAX_DATA_SHREDS_PER_SLOT {
            return None;
        }
        if self.data_indexes.len() < last as usize + 1 {
            proof {
                if self@.complete() {
                    assert forall|index: u32| index < last + 1 implies
                        #[trigger] self.data_indexes@.contains(index) by {
                        assert(self@.data_indexes.contains(index));
                    }
                    lemma_holds_enough(self.data_indexes@, (last + 1) as nat);
                }
            }
            return None;
        }
        let mut index: u32 = 0;
        while index <= last
            invariant
                index <= last + 1,
                last < MAX_DATA_SHREDS_PER_SLOT,
                self.last_data_index == Some(last),
                forall|i: u32| i < index ==> #[trigger] self@.data_indexes.contains(i),
            decreases last + 1 - index,
        {
            if !self.data_indexes.contains(&index) {
                assert(!self@.data_indexes.contains(index));
                return None;
            }
            index = index + 1;
        }
        Some(last)
    }

    /// Takes in a shred that was received, recovers what that makes recoverable, and decodes the
    /// slot's block once every shred of it is known.
    pub fn record(&mut self, shred: WireShred, received_at: u64, slot: u64) -> (decoded: Option<
        DecodedBlock,
    >)
        requires
            old(self).wf(slot),
            fec_set(old(self)@.fec_sets, shred.fec_set_index).admits(shred@),
            shred.wf(),
            fec::placed(shred@, slot),
        ensures
            exists|recovery_ns: u64, decoding_ns: u64|
                (final(self)@, decoded) == #[trigger] old(self)@.after(
                    shred@,
                    received_at,
                    recovery_ns,
                    decoding_ns,
                ),
            final(self).wf(slot),
    {
        let ghost before = self@;
        let ghost view = shred@;
        let set_index: u32 = shred.fec_set_index;
        self.add(shred, received_at, slot);
        let ghost added = self@;
        self.try_recovery(set_index, slot);
        let ghost recovery_ns = choose|spent: u64| self@ == added.after_recovery(set_index, spent);
        let ghost tried = self@;
        let last: u32 = match self.complete_up_to() {
            Some(last) => last,
            None => {
                assert((self@, None::<DecodedBlock>) == before.after(
                    view,
                    received_at,
                    recovery_ns,
                    0,
                ));
                return None;
            },
        };
        let started: std::time::Instant = clock::now();
        let decoded: Option<DecodedBlock> = validate_and_decode_slot(self, last, slot);
        let spent: u64 = clock::elapsed_ns(started);
        self.reconstruction_cpu_ns = self.reconstruction_cpu_ns.saturating_add(spent);
        proof {
            assert(self@ =~= tried.after_decoding(spent));
            assert((self@, decoded) == before.after(view, received_at, recovery_ns, spent));
            lemma_decoding_wf(tried, slot, spent);
        }
        decoded
    }
}

/// Timing the decoding keeps a slot in order.
pub(crate) proof fn lemma_decoding_wf(state: SlotView, slot: u64, spent: u64)
    requires
        state.wf(slot),
    ensures
        state.after_decoding(spent).wf(slot),
{
    let after = state.after_decoding(spent);
    assert(after.fec_sets == state.fec_sets && after.data_indexes == state.data_indexes);
    assert forall|index: u32| #[trigger] after.data_indexes.contains(index) implies exists|
        set: u32,
        at: int,
    | holds(after.fec_sets, set, at, index) by {
        assert(state.data_indexes.contains(index));
    }
    assert forall|index: u32, set: u32, at: int| #[trigger] holds(
        after.fec_sets,
        set,
        at,
        index,
    ) implies after.data_indexes.contains(index) by {
        assert(holds(state.fec_sets, set, at, index));
        assert(state.data_indexes.contains(index));
    }
    if let Some(last) = state.last_data_index {
        let (set, at) = choose|set: u32, at: int| ends(state.fec_sets, set, at, last);
        assert(ends(after.fec_sets, set, at, last));
    }
}

/// Notes the data shreds of a set from `from` on.
fn note_recovered(
    set: &FecAssembly,
    from: usize,
    data_indexes: &mut HashSet<u32>,
    last_data_index: &mut Option<u32>,
)
    requires
        from <= set.shreds@.len(),
    ensures
        final(data_indexes)@ == old(data_indexes)@.union(
            Set::new(|index: u32| indexed(set@.shreds.skip(from as int), index)),
        ),
        *final(last_data_index) == last_flagged(
            *old(last_data_index),
            set@.shreds.skip(from as int),
        ),
{
    let ghost found = set@.shreds.skip(from as int);
    let mut i: usize = from;
    assert(data_indexes@ =~= old(data_indexes)@.union(
        Set::new(|index: u32| indexed(found.take(0), index)),
    ));
    while i < set.shreds.len()
        invariant
            from <= i <= set.shreds@.len(),
            found == set@.shreds.skip(from as int),
            data_indexes@ == old(data_indexes)@.union(
                Set::new(|index: u32| indexed(found.take(i - from), index)),
            ),
            *last_data_index == last_flagged(*old(last_data_index), found.take(i - from)),
        decreases set.shreds@.len() - i,
    {
        let shred: &WireShred = &set.shreds[i];
        let ghost n = i - from;
        let ghost noted = data_indexes@;
        assert(found[n] == shred@);
        data_indexes.insert(shred.index);
        if shred.last_in_slot() {
            *last_data_index = Some(shred.index);
        }
        proof {
            let fewer = found.take(n);
            let more = found.take(n + 1);
            assert(more.drop_last() =~= fewer);
            assert(more.last() == shred@);
            assert forall|index: u32| indexed(more, index) <==> indexed(fewer, index) || index
                == shred.index by {
                if indexed(more, index) {
                    let k = choose|k: int|
                        0 <= k < more.len() && (#[trigger] more[k]).index == index;
                    if k < n {
                        assert(fewer[k].index == index);
                    }
                }
                if indexed(fewer, index) {
                    let k = choose|k: int|
                        0 <= k < fewer.len() && (#[trigger] fewer[k]).index == index;
                    assert(more[k].index == index);
                }
                assert(more[n].index == shred.index);
            }
            assert(data_indexes@ =~= old(data_indexes)@.union(
                Set::new(|index: u32| indexed(more, index)),
            ));
        }
        i = i + 1;
    }
    assert(found.take(i - from) =~= found);
}

/// A slot after recovery is in order still.
pub(crate) proof fn lemma_recovery_wf(before: SlotView, slot: u64, set: u32, spent: u64)
    requires
        before.wf(slot),
        before.fec_sets.contains_key(set),
        before.fec_sets[set].after_recovery(set).wf(slot, set),
    ensures
        before.after_recovery(set, spent).wf(slot),
{
    let after = before.after_recovery(set, spent);
    let known = before.fec_sets[set];
    let now = known.after_recovery(set);
    let found = now.shreds.skip(known.shreds.len() as int);
    fec::lemma_recovery_adds(known, slot, set);
    assert forall|index: u32|
        #![trigger after.data_indexes.contains(index)]
        after.data_indexes.contains(index) <==> exists|s: u32, at: int|
            holds(after.fec_sets, s, at, index) by {
        if after.data_indexes.contains(index) {
            if before.data_indexes.contains(index) {
                let (s, at) = choose|s: u32, at: int| holds(before.fec_sets, s, at, index);
                assert(holds(after.fec_sets, s, at, index));
            } else {
                let k = choose|k: int|
                    0 <= k < found.len() && (#[trigger] found[k]).index == index;
                assert(found[k] == now.shreds[known.shreds.len() + k]);
                assert(holds(after.fec_sets, set, known.shreds.len() + k, index));
            }
        }
        if exists|s: u32, at: int| holds(after.fec_sets, s, at, index) {
            let (s, at) = choose|s: u32, at: int| holds(after.fec_sets, s, at, index);
            if s == set && at >= known.shreds.len() {
                assert(found[at - known.shreds.len()] == now.shreds[at]);
                assert(indexed(found, index));
            } else {
                if s == set {
                    assert(known.shreds[at] == now.shreds[at]);
                }
                assert(holds(before.fec_sets, s, at, index));
            }
        }
    }
    if let Some(last) = after.last_data_index {
        lemma_last_flagged(before.last_data_index, found);
        if before.last_data_index == Some(last) {
            let (s, at) = choose|s: u32, at: int| ends(before.fec_sets, s, at, last);
            assert(ends(after.fec_sets, s, at, last));
        } else {
            let k = choose|k: int|
                0 <= k < found.len() && (#[trigger] found[k]).index == last
                    && found[k].last_in_slot();
            assert(found[k] == now.shreds[known.shreds.len() + k]);
            assert(ends(after.fec_sets, set, known.shreds.len() + k, last));
            assert(indexed(found, last));
        }
    }
    let new = Set::new(|index: u32| indexed(found, index));
    lemma_indexes_are_few(found);
    lemma_finite(before.data_indexes);
    lemma_finite(new);
    vstd::set_lib::lemma_len_union(before.data_indexes, new);
}

/// Every set of indexes is finite.
pub(crate) proof fn lemma_finite(numbers: Set<u32>)
    ensures
        numbers.finite(),
{
    broadcast use vstd::set_lib::full_set_properties;

    vstd::set_lib::lemma_len_subset(numbers, Set::<u32>::full());
}

/// The indexes of shreds are no more than the shreds.
proof fn lemma_indexes_are_few(shreds: Seq<wire::WireShredView>)
    ensures
        Set::new(|index: u32| indexed(shreds, index)).len() <= shreds.len(),
{
    let list = shreds.map_values(|shred: wire::WireShredView| shred.index);
    let new = Set::new(|index: u32| indexed(shreds, index));
    assert forall|index: u32| #[trigger] new.contains(index) implies list.to_set().contains(
        index,
    ) by {
        let k = choose|k: int| 0 <= k < shreds.len() && (#[trigger] shreds[k]).index == index;
        assert(list[k] == index);
    }
    list.lemma_cardinality_of_set();
    lemma_finite(list.to_set());
    vstd::set_lib::lemma_len_subset(new, list.to_set());
}

/// The index that is found to end the slot was known, or is that of a shred that ends the slot.
pub(crate) proof fn lemma_last_flagged(known: Option<u32>, shreds: Seq<wire::WireShredView>)
    ensures
        last_flagged(known, shreds) matches Some(last) ==> Some(last) == known || exists|k: int|
            0 <= k < shreds.len() && (#[trigger] shreds[k]).index == last
                && shreds[k].last_in_slot(),
    decreases shreds.len(),
{
    if shreds.len() > 0 {
        if shreds.last().last_in_slot() {
            assert(shreds[shreds.len() - 1].index == shreds.last().index);
        } else {
            let fewer = shreds.drop_last();
            lemma_last_flagged(known, fewer);
            if last_flagged(known, fewer) is Some && last_flagged(known, fewer) != known {
                let last = last_flagged(known, fewer)->0;
                let k = choose|k: int|
                    0 <= k < fewer.len() && (#[trigger] fewer[k]).index == last
                        && fewer[k].last_in_slot();
                assert(shreds[k].index == last);
            }
        }
    }
}

/// A slot with one more shred is in order still.
pub(crate) proof fn lemma_with_wf(before: SlotView, slot: u64, shred: wire::WireShredView, received_at: u64)
    requires
        before.wf(slot),
        before.with(shred, received_at).fec_sets[shred.fec_set_index].wf(slot, shred.fec_set_index),
    ensures
        before.with(shred, received_at).wf(slot),
{
    let after = before.with(shred, received_at);
    let set = shred.fec_set_index;
    let known = fec_set(before.fec_sets, set);
    assert forall|index: u32|
        #![trigger after.data_indexes.contains(index)]
        after.data_indexes.contains(index) <==> exists|s: u32, at: int|
            holds(after.fec_sets, s, at, index) by {
        if after.data_indexes.contains(index) {
            if before.data_indexes.contains(index) {
                let (s, at) = choose|s: u32, at: int| holds(before.fec_sets, s, at, index);
                assert(holds(after.fec_sets, s, at, index));
            } else {
                assert(holds(after.fec_sets, set, known.shreds.len() as int, index));
            }
        }
        if exists|s: u32, at: int| holds(after.fec_sets, s, at, index) {
            let (s, at) = choose|s: u32, at: int| holds(after.fec_sets, s, at, index);
            if s == set && at == known.shreds.len() {
            } else {
                assert(holds(before.fec_sets, s, at, index));
            }
        }
    }
    if let Some(last) = after.last_data_index {
        if shred.last_in_slot() {
            assert(ends(after.fec_sets, set, known.shreds.len() as int, last));
        } else {
            let (s, at) = choose|s: u32, at: int| ends(before.fec_sets, s, at, last);
            assert(ends(after.fec_sets, s, at, last));
        }
    }
    lemma_finite(before.data_indexes);
}

/// A slot stays in order, whatever comes of a shred.
pub proof fn lemma_after_wf(
    state: SlotView,
    slot: u64,
    shred: wire::WireShredView,
    received_at: u64,
    recovery_ns: u64,
    decoding_ns: u64,
)
    requires
        state.wf(slot),
        fec_set(state.fec_sets, shred.fec_set_index).admits(shred),
        fec::placed(shred, slot),
    ensures
        state.after(shred, received_at, recovery_ns, decoding_ns).0.wf(slot),
{
    let set = shred.fec_set_index;
    let known = fec_set(state.fec_sets, set);
    let added = state.with(shred, received_at);
    fec::lemma_with_wf(known, slot, shred);
    lemma_with_wf(state, slot, shred, received_at);
    fec::lemma_after_recovery_wf(added.fec_sets[set], slot, set);
    lemma_recovery_wf(added, slot, set, recovery_ns);
    lemma_decoding_wf(added.after_recovery(set, recovery_ns), slot, decoding_ns);
}

/// A slot that is complete has counted at least as many shreds as its data shreds are.
pub proof fn lemma_complete_is_counted(state: SlotView, slot: u64)
    requires
        state.wf(slot),
        state.complete(),
    ensures
        state.received_shreds + state.recovered_data_shreds >= state.last_data_index->0 + 1,
{
    lemma_holds_enough(state.data_indexes, (state.last_data_index->0 + 1) as nat);
}

/// A set that has every number below `count` has at least as many members.
pub(crate) proof fn lemma_holds_enough(numbers: Set<u32>, count: nat)
    requires
        count <= u32::MAX,
        forall|i: u32| i < count ==> #[trigger] numbers.contains(i),
    ensures
        numbers.len() >= count,
{
    broadcast use {
        vstd::set_lib::range_set_properties,
        vstd::set_lib::full_set_properties,
    };

    let below = Set::<u32>::range(0, count as u32);
    vstd::set_lib::lemma_len_subset(numbers, Set::<u32>::full());
    vstd::set_lib::lemma_len_subset(below, numbers);
}

/// Whether a shred is among those of the first `sets` sets of `list`, or the first `shreds` of
/// the set behind them.
spec fn seen(list: Seq<u32>, sets: int, shreds: int, set: u32, at: int) -> bool {
    ||| exists|k: int| 0 <= k < sets && #[trigger] list[k] == set
    ||| sets < list.len() && list[sets] == set && at < shreds
}

/// `place` is where the data shred with this index is to be taken from, as far as has been seen.
spec fn best_seen(
    fec_sets: Map<u32, fec::FecView>,
    list: Seq<u32>,
    sets: int,
    shreds: int,
    index: u32,
    place: Option<(u32, usize)>,
) -> bool {
    match place {
        Some((set, at)) => {
            &&& seen(list, sets, shreds, set, at as int)
            &&& holds(fec_sets, set, at as int, index)
            &&& forall|other: u32, there: int|
                seen(list, sets, shreds, other, there) && holds(fec_sets, other, there, index)
                    ==> other <= set
        },
        None => forall|other: u32, there: int|
            seen(list, sets, shreds, other, there) ==> !holds(fec_sets, other, there, index),
    }
}

/// Where everything has been seen, the best that was seen is the data shred.
proof fn lemma_best_seen(
    fec_sets: Map<u32, fec::FecView>,
    slot: u64,
    list: Seq<u32>,
    index: u32,
    place: Option<(u32, usize)>,
)
    requires
        forall|set: u32| #[trigger] fec_sets.contains_key(set) ==> fec_sets[set].wf(slot, set),
        keys::lists_keys(list, fec_sets),
        best_seen(fec_sets, list, list.len() as int, 0, index, place),
    ensures
        data_shred(fec_sets, index) == match place {
            Some((set, at)) => Some(fec_sets[set].shreds[at as int]),
            None => None,
        },
{
    reveal(data_shred);
    assert forall|set: u32, at: int| holds(fec_sets, set, at, index) implies seen(
        list,
        list.len() as int,
        0,
        set,
        at,
    ) by {
        assert(list.contains(set));
    }
    if let Some((set, at)) = place {
        assert(holds(fec_sets, set, at as int, index));
        let (s, a) = choose|s: u32, a: int|
            {
                &&& holds(fec_sets, s, a, index)
                &&& forall|other: u32, there: int|
                    holds(fec_sets, other, there, index) ==> other <= s
            };
        assert(s == set);
        let shreds = fec_sets[set].shreds;
        if a < at {
            assert(shreds[a].index != shreds[at as int].index);
        } else if a > at {
            assert(shreds[at as int].index != shreds[a].index);
        }
    }
}

/// `place` is where the data shred with this index is.
spec fn located_at(fec_sets: Map<u32, fec::FecView>, index: u32, place: Option<(u32, usize)>) -> bool {
    match place {
        Some((set, at)) => {
            &&& holds(fec_sets, set, at as int, index)
            &&& data_shred(fec_sets, index) == Some(fec_sets[set].shreds[at as int])
        },
        None => data_shred(fec_sets, index) is None,
    }
}

/// `places` is where the data shreds are.
spec fn located(fec_sets: Map<u32, fec::FecView>, places: Seq<Option<(u32, usize)>>) -> bool {
    forall|index: int|
        0 <= index < places.len() ==> located_at(fec_sets, index as u32, #[trigger] places[index])
}

/// Where each data shred up to `last_index` is to be taken from.
fn locate_data(state: &SlotAssembly, last_index: u32, slot: u64) -> (places: Vec<
    Option<(u32, usize)>,
>)
    requires
        state.wf(slot),
        last_index < MAX_DATA_SHREDS_PER_SLOT,
    ensures
        places@.len() == last_index + 1,
        located(state@.fec_sets, places@),
{
    let ghost fec_sets = state@.fec_sets;
    let mut places: Vec<Option<(u32, usize)>> = Vec::new();
    while places.len() < last_index as usize + 1
        invariant
            places@.len() <= last_index + 1,
            last_index < MAX_DATA_SHREDS_PER_SLOT,
            forall|i: int| 0 <= i < places@.len() ==> (#[trigger] places@[i]) is None,
        decreases last_index + 1 - places@.len(),
    {
        places.push(None);
    }
    let list: Vec<u32> = keys::list_keys(&state.fec_sets);
    assert(keys::lists_keys(list@, fec_sets)) by {
        assert forall|set: u32| #[trigger] list@.contains(set) <==> fec_sets.contains_key(set) by {
            assert(state.fec_sets@.contains_key(set) <==> fec_sets.contains_key(set));
        }
    }
    let mut n: usize = 0;
    while n < list.len()
        invariant
            n <= list@.len(),
            state.wf(slot),
            fec_sets == state@.fec_sets,
            keys::lists_keys(list@, fec_sets),
            last_index < MAX_DATA_SHREDS_PER_SLOT,
            places@.len() == last_index + 1,
            forall|index: u32|
                #![trigger places@[index as int]]
                index <= last_index ==> best_seen(
                    fec_sets,
                    list@,
                    n as int,
                    0,
                    index,
                    places@[index as int],
                ),
        decreases list@.len() - n,
    {
        let set_index: u32 = list[n];
        assert(list@.contains(set_index));
        let set: &FecAssembly = match state.fec_sets.get(&set_index) {
            Some(set) => set,
            None => {
                assert(false);
                return places;
            },
        };
        assert(fec_sets[set_index] == set@);
        let mut at: usize = 0;
        while at < set.shreds.len()
            invariant
                n < list@.len(),
                at <= set.shreds@.len(),
                set_index == list@[n as int],
                fec_sets.contains_key(set_index),
                fec_sets[set_index] == set@,
                set.wf(slot, set_index),
                keys::lists_keys(list@, fec_sets),
                last_index < MAX_DATA_SHREDS_PER_SLOT,
                places@.len() == last_index + 1,
                forall|index: u32|
                    #![trigger places@[index as int]]
                    index <= last_index ==> best_seen(
                        fec_sets,
                        list@,
                        n as int,
                        at as int,
                        index,
                        places@[index as int],
                    ),
            decreases set.shreds@.len() - at,
        {
            let shred: &WireShred = &set.shreds[at];
            assert(set@.shreds[at as int] == shred@);
            let ghost before = places@;
            if shred.is_data() && shred.index <= last_index {
                let better: bool = match places[shred.index as usize] {
                    Some((known, _)) => known < set_index,
                    None => true,
                };
                if better {
                    places.set(shred.index as usize, Some((set_index, at)));
                }
            }
            proof {
                assert forall|index: u32|
                    #![trigger places@[index as int]]
                    index <= last_index implies best_seen(
                    fec_sets,
                    list@,
                    n as int,
                    at + 1,
                    index,
                    places@[index as int],
                ) by {
                    assert(best_seen(
                        fec_sets,
                        list@,
                        n as int,
                        at as int,
                        index,
                        before[index as int],
                    ));
                    assert forall|other: u32, there: int|
                        seen(list@, n as int, at + 1, other, there) && holds(
                            fec_sets,
                            other,
                            there,
                            index,
                        ) implies seen(list@, n as int, at as int, other, there) || (other
                        == set_index && there == at && shred@.is_data() && shred.index == index) by {
                    }
                }
            }
            at = at + 1;
        }
        proof {
            assert forall|index: u32|
                #![trigger places@[index as int]]
                index <= last_index implies best_seen(
                fec_sets,
                list@,
                n + 1,
                0,
                index,
                places@[index as int],
            ) by {
                assert forall|other: u32, there: int| holds(fec_sets, other, there, index) implies (
                seen(list@, n + 1, 0, other, there) <==> seen(
                    list@,
                    n as int,
                    set.shreds@.len() as int,
                    other,
                    there,
                )) by {
                    if seen(list@, n + 1, 0, other, there) {
                        if exists|k: int| 0 <= k < n + 1 && #[trigger] list@[k] == other {
                            let k = choose|k: int| 0 <= k < n + 1 && #[trigger] list@[k] == other;
                            assert(list@[k] == other);
                        }
                    }
                    assert(list@[n as int] == set_index);
                }
            }
        }
        n = n + 1;
    }
    proof {
        assert forall|index: int| 0 <= index < places@.len() implies located_at(
            fec_sets,
            index as u32,
            #[trigger] places@[index],
        ) by {
            lemma_best_seen(fec_sets, slot, list@, index as u32, places@[index]);
        }
    }
    places
}

/// The data shred with this index.
fn shred_at<'a>(
    state: &'a SlotAssembly,
    places: &Vec<Option<(u32, usize)>>,
    index: u32,
    slot: u64,
) -> (found: Option<&'a WireShred>)
    requires
        state.wf(slot),
        located(state@.fec_sets, places@),
        index < places@.len(),
    ensures
        match found {
            Some(shred) => shred.wf() && data_shred(state@.fec_sets, index) == Some(shred@),
            None => data_shred(state@.fec_sets, index) is None,
        },
{
    assert(located_at(state@.fec_sets, index, places@[index as int]));
    match places[index as usize] {
        Some((set_index, at)) => match state.fec_sets.get(&set_index) {
            Some(set) => {
                assert(set.wf(slot, set_index));
                Some(&set.shreds[at])
            },
            None => None,
        },
        None => None,
    }
}

/// Takes one more data shred into a block; `false` is that its batch is not one of entries.
fn take_shred(batch: &mut Vec<u8>, counts: &mut DecodedBlock, shred: &WireShred) -> (fine: bool)
    requires
        shred.wf(),
    ensures
        match taken(
            (old(batch)@, old(counts).entries as int, old(counts).transactions as int),
            shred@,
        ) {
            Some(after) => fine && after == (
                final(batch)@,
                final(counts).entries as int,
                final(counts).transactions as int,
            ),
            None => !fine,
        },
{
    let data: &[u8] = match shred.data() {
        Some(data) => data,
        None => return false,
    };
    batch.extend_from_slice(data);
    assert(batch@ =~= old(batch)@ + data@);
    if shred.data_complete() && batch.len() > 0 {
        match entries::decode_entry_batch(batch.as_slice()) {
            Some(decoded) => {
                counts.entries = counts.entries.saturating_add(decoded.entries);
                counts.transactions = counts.transactions.saturating_add(decoded.transactions);
                batch.clear();
                assert(batch@ =~= Seq::empty());
            },
            None => return false,
        }
    }
    true
}

/// Takes the data shred with this index into a block.
fn decode_at(
    state: &SlotAssembly,
    places: &Vec<Option<(u32, usize)>>,
    slot: u64,
    index: u32,
    batch: &mut Vec<u8>,
    counts: &mut DecodedBlock,
) -> (fine: bool)
    requires
        state.wf(slot),
        located(state@.fec_sets, places@),
        index < places@.len(),
        decoded_below(state@.fec_sets, index as nat) == Some(
            (old(batch)@, old(counts).entries as int, old(counts).transactions as int),
        ),
    ensures
        match decoded_below(state@.fec_sets, (index + 1) as nat) {
            Some(after) => fine && after == (
                final(batch)@,
                final(counts).entries as int,
                final(counts).transactions as int,
            ),
            None => !fine,
        },
{
    match shred_at(state, places, index, slot) {
        Some(shred) => take_shred(batch, counts, shred),
        None => false,
    }
}

/// Decodes the block that the data shreds up to `last_index` spell.
pub fn validate_and_decode_slot(state: &SlotAssembly, last_index: u32, slot: u64) -> (decoded:
    Option<DecodedBlock>)
    requires
        state.wf(slot),
        last_index < MAX_DATA_SHREDS_PER_SLOT,
    ensures
        decoded == block(state@.fec_sets, last_index),
{
    let places: Vec<Option<(u32, usize)>> = locate_data(state, last_index, slot);
    let mut batch: Vec<u8> = Vec::new();
    let mut counts = DecodedBlock { entries: 0, transactions: 0 };
    let mut index: u32 = 0;
    while index <= last_index
        invariant
            index <= last_index + 1,
            last_index < MAX_DATA_SHREDS_PER_SLOT,
            state.wf(slot),
            places@.len() == last_index + 1,
            located(state@.fec_sets, places@),
            decoded_below(state@.fec_sets, index as nat) == Some(
                (batch@, counts.entries as int, counts.transactions as int),
            ),
        decreases last_index + 1 - index,
    {
        if !decode_at(state, &places, slot, index, &mut batch, &mut counts) {
            proof {
                lemma_decoding_fails(
                    state@.fec_sets,
                    (index + 1) as nat,
                    (last_index + 1) as nat,
                );
            }
            return None;
        }
        index = index + 1;
    }
    if batch.len() == 0 {
        Some(counts)
    } else {
        None
    }
}

/// A slot that is complete has every data shred up to the one that it ends with.
pub proof fn lemma_complete_has_data(state: SlotView, slot: u64, index: u32)
    requires
        state.wf(slot),
        state.complete(),
        index <= state.last_data_index->0,
    ensures
        data_shred(state.fec_sets, index) matches Some(shred) && shred.is_data() && shred.index
            == index && shred.slot == slot,
{
    reveal(data_shred);
    assert(state.data_indexes.contains(index));
    let (set, at) = choose|set: u32, at: int| holds(state.fec_sets, set, at, index);
    lemma_highest_holder(state.fec_sets, index, set, at, u32::MAX as nat);
    let (best, there) = choose|set: u32, at: int|
        {
            &&& holds(state.fec_sets, set, at, index)
            &&& forall|other: u32, there: int|
                holds(state.fec_sets, other, there, index) ==> other <= set
        };
    assert(state.fec_sets.contains_key(best));
}

/// Among the FEC sets that have a data shred, one has the highest index.
pub(crate) proof fn lemma_highest_holder(
    fec_sets: Map<u32, fec::FecView>,
    index: u32,
    set: u32,
    at: int,
    most: nat,
)
    requires
        holds(fec_sets, set, at, index),
        most <= u32::MAX,
        forall|other: u32, there: int| holds(fec_sets, other, there, index) ==> other <= most,
    ensures
        exists|best: u32, place: int|
            {
                &&& holds(fec_sets, best, place, index)
                &&& forall|other: u32, there: int|
                    holds(fec_sets, other, there, index) ==> other <= best
            },
    decreases most,
{
    let top = most as u32;
    if exists|place: int| holds(fec_sets, top, place, index) {
        let place = choose|place: int| holds(fec_sets, top, place, index);
        assert(holds(fec_sets, top, place, index));
    } else {
        assert forall|other: u32, there: int| holds(fec_sets, other, there, index) implies other
            <= most - 1 by {
            if other == most {
                assert(holds(fec_sets, top, there, index));
            }
        }
        assert(set <= most - 1);
        lemma_highest_holder(fec_sets, index, set, at, (most - 1) as nat);
    }
}

/// Where decoding fails, it fails however far it goes on.
proof fn lemma_decoding_fails(fec_sets: Map<u32, fec::FecView>, from: nat, to: nat)
    requires
        from <= to,
        decoded_below(fec_sets, from) is None,
    ensures
        decoded_below(fec_sets, to) is None,
    decreases to,
{
    if from < to {
        lemma_decoding_fails(fec_sets, from, (to - 1) as nat);
    }
}

/// A shred that is taken in is counted as received, whatever it is of; what its set has gained
/// beyond it is counted as recovered, and the set as one with recovered data the first time that
/// there is any. Its time is no earlier than the first and no later than the last that is kept,
/// and one of the times that were known is kept otherwise.
pub proof fn lemma_shred_is_counted(
    state: SlotView,
    slot: u64,
    shred: wire::WireShredView,
    received_at: u64,
    recovery_ns: u64,
    decoding_ns: u64,
)
    requires
        state.wf(slot),
        fec_set(state.fec_sets, shred.fec_set_index).admits(shred),
        fec::placed(shred, slot),
        state.received_shreds < u32::MAX,
        state.recovered_data_shreds < u32::MAX - 256,
        state.fec_sets_recovered < u32::MAX,
    ensures
        ({
            let after = state.after(shred, received_at, recovery_ns, decoding_ns).0;
            let before = fec_set(state.fec_sets, shred.fec_set_index);
            let now = after.fec_sets[shred.fec_set_index];
            let gained = now.shreds.len() - before.shreds.len() - 1;
            &&& after.received_shreds == state.received_shreds + 1
            &&& 0 <= gained <= 256
            &&& after.recovered_data_shreds == state.recovered_data_shreds + gained
            &&& now.recovered_data <==> before.recovered_data || gained > 0
            &&& after.fec_sets_recovered == state.fec_sets_recovered + if gained > 0
                && !before.recovered_data {
                1int
            } else {
                0
            }
            &&& after.first_received_at <= received_at <= after.last_received_at
            &&& after.first_received_at <= state.first_received_at
            &&& state.last_received_at <= after.last_received_at
            &&& after.first_received_at == received_at || after.first_received_at
                == state.first_received_at
            &&& after.last_received_at == received_at || after.last_received_at
                == state.last_received_at
            &&& now.shreds.take(before.shreds.len() as int) == before.shreds
            &&& now.shreds[before.shreds.len() as int] == shred
            &&& forall|set: u32|
                set != shred.fec_set_index ==> (#[trigger] after.fec_sets.contains_key(set)
                    <==> state.fec_sets.contains_key(set)) && (state.fec_sets.contains_key(set)
                    ==> after.fec_sets[set] == state.fec_sets[set])
        }),
{
    let set = shred.fec_set_index;
    let before = fec_set(state.fec_sets, set);
    let added = before.with(shred);
    let now = added.after_recovery(set);
    fec::lemma_with_wf(before, slot, shred);
    fec::lemma_recovery_adds(added, slot, set);
    if added.can_attempt() {
        if let Some(found) = fec::recovery(added, set) {
            let shards = fec::recovered_shards(added, set)->0;
            let (num_data, _) = added.erasure_config->0;
            fec::lemma_missing_fits(added, slot, set, shards, num_data as nat);
            assert(now.shreds == added.shreds + found);
        }
    }
    let n = before.shreds.len() as int;
    assert(added.shreds[n] == shred);
    assert(now.shreds.take(n + 1) == added.shreds);
    assert(now.shreds[n] == now.shreds.take(n + 1)[n]);
    assert(now.shreds.take(n) =~= now.shreds.take(n + 1).take(n));
    assert(added.shreds.take(n) =~= before.shreds);
}

} // verus!
