//! One FEC set of a slot: which shreds have arrived, and the recovery of those that have not.

use vstd::prelude::*;

use crate::clock;
use crate::erasure;
use crate::wire::{self, WireKind, WireShred, MAX_DATA_SHREDS_PER_SLOT, MAX_SHARDS_PER_SET};

verus! {

/// What is known of an FEC set.
#[verifier::ext_equal]
pub struct FecView {
    /// The shreds, in the order in which they came to be known.
    pub shreds: Seq<wire::WireShredView>,
    /// The numbers of data and code shards, once a code shred has told them.
    pub erasure_config: Option<(usize, usize)>,
    /// How many shreds there were when recovery was last tried.
    pub last_recovery_attempt_size: usize,
    /// Whether recovery has ever yielded a shred.
    pub recovered_data: bool,
}

impl FecView {
    pub open spec fn empty() -> FecView {
        FecView {
            shreds: Seq::empty(),
            erasure_config: None,
            last_recovery_attempt_size: 0,
            recovered_data: false,
        }
    }

    /// Whether the set has the code shred, or the data shred, with this index.
    pub open spec fn has(self, code: bool, index: u32) -> bool {
        exists|i: int|
            0 <= i < self.shreds.len() && (#[trigger] self.shreds[i]).is_code() == code
                && self.shreds[i].index == index
    }

    /// Whether a shred is new to the set and agrees with all that is known of it.
    pub open spec fn admits(self, shred: wire::WireShredView) -> bool {
        &&& !self.has(shred.is_code(), shred.index)
        &&& forall|i: int|
            0 <= i < self.shreds.len() ==> same_origin(#[trigger] self.shreds[i], shred)
        &&& match shred.kind {
            WireKind::Data { .. } => self.erasure_config matches Some((num_data, _))
                ==> shred.index - shred.fec_set_index < num_data,
            WireKind::Code { num_data, num_code, .. } => {
                &&& self.erasure_config matches Some(config) ==> config == (num_data, num_code)
                &&& forall|i: int|
                    0 <= i < self.shreds.len() && (#[trigger] self.shreds[i]).is_data()
                        ==> self.shreds[i].index - shred.fec_set_index < num_data
            },
        }
    }

    /// The set with one more shred.
    pub open spec fn with(self, shred: wire::WireShredView) -> FecView {
        FecView {
            shreds: self.shreds.push(shred),
            erasure_config: match shred.kind {
                WireKind::Data { .. } => self.erasure_config,
                WireKind::Code { num_data, num_code, .. } => Some((num_data, num_code)),
            },
            ..self
        }
    }

    /// How many data shreds the set has.
    pub open spec fn data_count(self) -> nat {
        self.shreds.filter(|shred: wire::WireShredView| shred.is_data()).len()
    }

    /// Whether recovery is worth trying: shards are missing, there is parity to recover them with,
    /// enough shreds are there, and there are other than at the last try.
    pub open spec fn can_attempt(self) -> bool {
        &&& self.erasure_config is Some
        &&& self.data_count() < (self.erasure_config->0).0 <= self.shreds.len()
        &&& exists|i: int| 0 <= i < self.shreds.len() && (#[trigger] self.shreds[i]).is_code()
        &&& self.last_recovery_attempt_size != self.shreds.len()
    }

    /// The invariant of a set: every shred belongs to it, no two are the same, all of them agree,
    /// and every one of them has a place among the shards.
    pub open spec fn wf(self, slot: u64, fec_set_index: u32) -> bool {
        &&& forall|i: int|
            #![trigger self.shreds[i]]
            0 <= i < self.shreds.len() ==> self.shreds[i].slot == slot
                && self.shreds[i].fec_set_index == fec_set_index && fits(
                self.shreds[i],
                fec_set_index,
                self.erasure_config,
            )
        &&& forall|i: int, j: int|
            #![trigger self.shreds[i], self.shreds[j]]
            0 <= i < j < self.shreds.len() ==> same_origin(self.shreds[i], self.shreds[j]) && !(
            self.shreds[i].is_code() == self.shreds[j].is_code() && self.shreds[i].index
                == self.shreds[j].index)
        &&& self.erasure_config matches Some((num_data, num_code)) ==> {
            &&& 0 < num_data
            &&& 0 < num_code
            &&& num_data + num_code <= MAX_SHARDS_PER_SET
            &&& fec_set_index + num_data <= MAX_DATA_SHREDS_PER_SLOT
        }
    }
}

/// Whether two shreds can be of one FEC set: the leader signs a whole set at once.
pub open spec fn same_origin(a: wire::WireShredView, b: wire::WireShredView) -> bool {
    &&& a.proof_size == b.proof_size
    &&& a.resigned == b.resigned
    &&& a.signature == b.signature
}

/// Whether a shred has a place in a set of these numbers of shards.
pub open spec fn fits(
    shred: wire::WireShredView,
    fec_set_index: u32,
    config: Option<(usize, usize)>,
) -> bool {
    match shred.kind {
        WireKind::Data { .. } => {
            &&& shred.data is Some
            &&& fec_set_index <= shred.index < MAX_DATA_SHREDS_PER_SLOT
            &&& config matches Some((num_data, _)) ==> shred.index - fec_set_index < num_data
        },
        WireKind::Code { num_data, num_code, position } => {
            &&& config == Some((num_data, num_code))
            &&& position < num_code
        },
    }
}

/// The place of a shred among the shards: data first, then code.
pub open spec fn place(shred: wire::WireShredView, fec_set_index: u32, num_data: int) -> int {
    match shred.kind {
        WireKind::Data { .. } => shred.index - fec_set_index,
        WireKind::Code { position, .. } => num_data + position,
    }
}

/// Whether the first `count` shreds can be laid out: no two in one place, and all shards as long as
/// the first.
pub open spec fn layable(
    shreds: Seq<wire::WireShredView>,
    count: int,
    fec_set_index: u32,
    num_data: int,
) -> bool {
    &&& forall|i: int|
        0 <= i < count ==> (#[trigger] shreds[i]).shard.len() == shreds[0].shard.len()
    &&& forall|i: int, j: int|
        #![trigger shreds[i], shreds[j]]
        0 <= i < j < count ==> place(shreds[i], fec_set_index, num_data) != place(
            shreds[j],
            fec_set_index,
            num_data,
        )
}

/// What lies in a place once the first `count` shreds are laid out.
pub open spec fn shard_in_place(
    shreds: Seq<wire::WireShredView>,
    count: int,
    fec_set_index: u32,
    num_data: int,
    at: int,
) -> Option<Seq<u8>> {
    if exists|i: int|
        0 <= i < count && place(#[trigger] shreds[i], fec_set_index, num_data) == at {
        let i = choose|i: int|
            0 <= i < count && place(#[trigger] shreds[i], fec_set_index, num_data) == at;
        Some(shreds[i].shard)
    } else {
        None
    }
}

/// The shards of a set, with a gap where no shred is known.
pub open spec fn shards_of(fec: FecView, fec_set_index: u32) -> Option<Seq<Option<Seq<u8>>>> {
    let (num_data, num_code) = fec.erasure_config->0;
    let count = fec.shreds.len() as int;
    if layable(fec.shreds, count, fec_set_index, num_data as int) {
        Some(
            Seq::new(
                (num_data + num_code) as nat,
                |at: int| shard_in_place(fec.shreds, count, fec_set_index, num_data as int, at),
            ),
        )
    } else {
        None
    }
}

/// The shards of a set after recovery, if it can be done.
pub open spec fn recovered_shards(fec: FecView, fec_set_index: u32) -> Option<
    Seq<Option<Seq<u8>>>,
> {
    let (num_data, num_code) = fec.erasure_config->0;
    match shards_of(fec, fec_set_index) {
        Some(shards) => if erasure::recoverable(num_data, num_code, shards) {
            Some(erasure::reed_solomon_shards(num_data, num_code, shards))
        } else {
            None
        },
        None => None,
    }
}

/// The data shreds that the set lacks among its first `count` data shards, out of `shards`, in
/// order; nothing if one of them does not spell the shred in its place.
pub open spec fn missing_shreds(
    fec: FecView,
    fec_set_index: u32,
    shards: Seq<Option<Seq<u8>>>,
    count: nat,
) -> Option<Seq<wire::WireShredView>>
    decreases count,
{
    if count == 0 {
        Some(Seq::empty())
    } else {
        let at = count - 1;
        let index = (fec_set_index + at) as u32;
        match missing_shreds(fec, fec_set_index, shards, at as nat) {
            None => None,
            Some(found) => if fec.has(false, index) {
                Some(found)
            } else {
                let first = fec.shreds[0];
                match wire::recovered_shred(
                    shards[at]->0,
                    first.slot,
                    index,
                    fec_set_index,
                    first.proof_size,
                    first.resigned,
                    first.signature,
                ) {
                    Some(shred) => Some(found.push(shred)),
                    None => None,
                }
            },
        }
    }
}

/// The data shreds that recovery yields, if it yields all that are missing.
pub open spec fn recovery(fec: FecView, fec_set_index: u32) -> Option<Seq<wire::WireShredView>> {
    match recovered_shards(fec, fec_set_index) {
        Some(shards) => missing_shreds(
            fec,
            fec_set_index,
            shards,
            (fec.erasure_config->0).0 as nat,
        ),
        None => None,
    }
}

impl FecView {
    /// The set after a try at recovery: the try is remembered, and what it yields is taken in.
    pub open spec fn after_recovery(self, fec_set_index: u32) -> FecView {
        if !self.can_attempt() {
            self
        } else {
            let tried = FecView {
                last_recovery_attempt_size: self.shreds.len() as usize,
                ..self
            };
            match recovery(self, fec_set_index) {
                Some(found) => FecView {
                    shreds: self.shreds + found,
                    recovered_data: self.recovered_data || found.len() > 0,
                    ..tried
                },
                None => tried,
            }
        }
    }

    /// Whether a try at recovery gets as far as computing shards.
    pub open spec fn reconstructs(self, fec_set_index: u32) -> bool {
        self.can_attempt() && recovered_shards(self, fec_set_index) is Some
    }
}

/// An FEC set.
pub struct FecAssembly {
    pub shreds: Vec<WireShred>,
    pub erasure_config: Option<(usize, usize)>,
    pub last_recovery_attempt_size: usize,
    pub recovered_data: bool,
}

impl View for FecAssembly {
    type V = FecView;

    open spec fn view(&self) -> FecView {
        FecView {
            shreds: self.shreds@.map_values(|shred: WireShred| shred@),
            erasure_config: self.erasure_config,
            last_recovery_attempt_size: self.last_recovery_attempt_size,
            recovered_data: self.recovered_data,
        }
    }
}

/// Whether two byte strings are the same.
pub fn same_bytes(a: &[u8], b: &[u8]) -> (same: bool)
    ensures
        same == (a@ == b@),
{
    if a.len() != b.len() {
        return false;
    }
    let mut i: usize = 0;
    while i < a.len()
        invariant
            i <= a@.len(),
            a@.len() == b@.len(),
            forall|j: int| 0 <= j < i ==> a@[j] == b@[j],
        decreases a@.len() - i,
    {
        if a[i] != b[i] {
            return false;
        }
        i = i + 1;
    }
    assert(a@ =~= b@);
    true
}

impl FecAssembly {
    pub open spec fn wf(&self, slot: u64, fec_set_index: u32) -> bool {
        &&& forall|i: int| 0 <= i < self.shreds@.len() ==> (#[trigger] self.shreds@[i]).wf()
        &&& self@.wf(slot, fec_set_index)
    }

    pub fn new() -> (fec: FecAssembly)
        ensures
            fec@ == FecView::empty(),
            forall|slot: u64, fec_set_index: u32| #[trigger] fec.wf(slot, fec_set_index),
    {
        let fec = FecAssembly {
            shreds: Vec::new(),
            erasure_config: None,
            last_recovery_attempt_size: 0,
            recovered_data: false,
        };
        assert(fec@.shreds =~= Seq::<wire::WireShredView>::empty());
        fec
    }

    /// Whether the set has the code shred, or the data shred, with this index.
    pub fn has(&self, code: bool, index: u32) -> (has: bool)
        ensures
            has == self@.has(code, index),
    {
        let mut i: usize = 0;
        while i < self.shreds.len()
            invariant
                i <= self.shreds@.len(),
                forall|j: int|
                    0 <= j < i ==> !((#[trigger] self@.shreds[j]).is_code() == code
                        && self@.shreds[j].index == index),
            decreases self.shreds@.len() - i,
        {
            assert(self@.shreds[i as int] == self.shreds@[i as int]@);
            if self.shreds[i].is_code() == code && self.shreds[i].index == index {
                return true;
            }
            i = i + 1;
        }
        false
    }

    /// Whether a shred is new to the set and agrees with all that is known of it.
    pub fn admits(&self, shred: &WireShred, slot: u64) -> (admitted: bool)
        requires
            self.wf(slot, shred.fec_set_index),
            shred@.is_data() ==> shred.fec_set_index <= shred.index,
        ensures
            admitted == self@.admits(shred@),
    {
        if self.has(shred.is_code(), shred.index) {
            return false;
        }
        let mut i: usize = 0;
        while i < self.shreds.len()
            invariant
                i <= self.shreds@.len(),
                forall|j: int| 0 <= j < i ==> same_origin(#[trigger] self@.shreds[j], shred@),
            decreases self.shreds@.len() - i,
        {
            let known: &WireShred = &self.shreds[i];
            assert(self@.shreds[i as int] == known@);
            if known.proof_size != shred.proof_size || known.resigned != shred.resigned
                || !same_bytes(known.signature.as_slice(), shred.signature.as_slice()) {
                return false;
            }
            i = i + 1;
        }
        match shred.kind {
            WireKind::Data { .. } => match self.erasure_config {
                Some((num_data, _)) => ((shred.index - shred.fec_set_index) as usize) < num_data,
                None => true,
            },
            WireKind::Code { num_data, num_code, .. } => {
                if let Some((known_data, known_code)) = self.erasure_config {
                    if known_data != num_data || known_code != num_code {
                        return false;
                    }
                }
                let mut i: usize = 0;
                while i < self.shreds.len()
                    invariant
                        i <= self.shreds@.len(),
                        self.wf(slot, shred.fec_set_index),
                        forall|j: int|
                            0 <= j < i && (#[trigger] self@.shreds[j]).is_data()
                                ==> self@.shreds[j].index - shred.fec_set_index < num_data,
                        shred@.kind == (WireKind::Code { num_data, num_code, position: shred.kind->position }),
                    decreases self.shreds@.len() - i,
                {
                    assert(self@.shreds[i as int] == self.shreds@[i as int]@);
                    if self.shreds[i].is_data() && (self.shreds[i].index
                        - shred.fec_set_index) as usize >= num_data {
                        return false;
                    }
                    i = i + 1;
                }
                true
            },
        }
    }

    /// Takes in a shred that the set admits.
    pub fn add(&mut self, shred: WireShred, slot: u64)
        requires
            old(self).wf(slot, shred.fec_set_index),
            old(self)@.admits(shred@),
            shred.wf(),
            placed(shred@, slot),
        ensures
            final(self)@ == old(self)@.with(shred@),
            final(self).wf(slot, shred.fec_set_index),
    {
        if let WireKind::Code { num_data, num_code, .. } = shred.kind {
            self.erasure_config = Some((num_data, num_code));
        }
        let ghost view = shred@;
        self.shreds.push(shred);
        proof {
            assert(self@.shreds =~= old(self)@.shreds.push(view));
            lemma_with_wf(old(self)@, slot, view);
        }
    }

    /// How many data shreds the set has.
    fn data_count(&self) -> (count: usize)
        ensures
            count == self@.data_count(),
    {
        let ghost is_data = |shred: wire::WireShredView| shred.is_data();
        let mut count: usize = 0;
        let mut i: usize = 0;
        while i < self.shreds.len()
            invariant
                i <= self.shreds@.len(),
                count <= i,
                is_data == (|shred: wire::WireShredView| shred.is_data()),
                count == self@.shreds.take(i as int).filter(is_data).len(),
            decreases self.shreds@.len() - i,
        {
            proof {
                let more = self@.shreds.take(i + 1);
                assert(more.drop_last() =~= self@.shreds.take(i as int));
                assert(more.last() == self.shreds@[i as int]@);
                reveal(Seq::filter);
            }
            if self.shreds[i].is_data() {
                count = count + 1;
            }
            i = i + 1;
        }
        assert(self@.shreds.take(i as int) =~= self@.shreds);
        count
    }

    /// Whether the set has any code shred.
    fn has_code(&self) -> (has: bool)
        ensures
            has == exists|i: int|
                0 <= i < self@.shreds.len() && (#[trigger] self@.shreds[i]).is_code(),
    {
        let mut i: usize = 0;
        while i < self.shreds.len()
            invariant
                i <= self.shreds@.len(),
                forall|j: int| 0 <= j < i ==> !(#[trigger] self@.shreds[j]).is_code(),
            decreases self.shreds@.len() - i,
        {
            assert(self@.shreds[i as int] == self.shreds@[i as int]@);
            if self.shreds[i].is_code() {
                return true;
            }
            i = i + 1;
        }
        false
    }

    /// Whether recovery is worth trying.
    pub fn can_attempt(&self) -> (can: bool)
        ensures
            can == self@.can_attempt(),
    {
        match self.erasure_config {
            Some((num_data, _)) => self.data_count() < num_data && self.shreds.len() >= num_data
                && self.has_code() && self.last_recovery_attempt_size != self.shreds.len(),
            None => false,
        }
    }

    /// Lays the shreds out as shards.
    fn lay_out(&self, slot: u64, fec_set_index: u32, num_data: usize, num_code: usize) -> (shards:
        Option<Vec<Option<Vec<u8>>>>)
        requires
            self.wf(slot, fec_set_index),
            self.shreds@.len() > 0,
            self.erasure_config == Some((num_data, num_code)),
        ensures
            match shards {
                Some(laid) => shards_of(self@, fec_set_index) == Some(
                    erasure::shard_bytes(laid@),
                ),
                None => shards_of(self@, fec_set_index) is None,
            },
    {
        let total: usize = num_data + num_code;
        let shard_len: usize = self.shreds[0].erasure_shard().len();
        let ghost shreds = self@.shreds;
        assert(shreds[0] == self.shreds@[0]@);
        let mut shards: Vec<Option<Vec<u8>>> = Vec::new();
        while shards.len() < total
            invariant
                shards@.len() <= total,
                forall|at: int| 0 <= at < shards@.len() ==> (#[trigger] shards@[at]) is None,
            decreases total - shards@.len(),
        {
            shards.push(None);
        }
        let mut i: usize = 0;
        while i < self.shreds.len()
            invariant
                i <= self.shreds@.len(),
                self.wf(slot, fec_set_index),
                self.erasure_config == Some((num_data, num_code)),
                shreds == self@.shreds,
                shreds.len() > 0,
                shard_len == shreds[0].shard.len(),
                total == num_data + num_code,
                shards@.len() == total,
                layable(shreds, i as int, fec_set_index, num_data as int),
                forall|at: int|
                    #![trigger shards@[at]]
                    0 <= at < total ==> erasure::shard_bytes(shards@)[at] == shard_in_place(
                        shreds,
                        i as int,
                        fec_set_index,
                        num_data as int,
                        at,
                    ),
            decreases self.shreds@.len() - i,
        {
            let shred: &WireShred = &self.shreds[i];
            assert(shreds[i as int] == shred@);
            let shard: &[u8] = shred.erasure_shard();
            if shard.len() != shard_len {
                return None;
            }
            let at: usize = match shred.kind {
                WireKind::Data { .. } => (shred.index - fec_set_index) as usize,
                WireKind::Code { position, .. } => num_data + position,
            };
            assert(at == place(shreds[i as int], fec_set_index, num_data as int));
            assert(at < total);
            if shards[at].is_some() {
                proof {
                    let k = choose|k: int|
                        0 <= k < i && place(
                            #[trigger] shreds[k],
                            fec_set_index,
                            num_data as int,
                        ) == at;
                    assert(place(shreds[k], fec_set_index, num_data as int) == place(
                        shreds[i as int],
                        fec_set_index,
                        num_data as int,
                    ));
                }
                return None;
            }
            let ghost before = shards@;
            let copy: Vec<u8> = wire::copy_range(shard, 0, shard.len());
            assert(copy@ =~= shard@);
            shards.set(at, Some(copy));
            proof {
                lemma_layable_extends(shreds, i as int, fec_set_index, num_data as int);
                assert forall|p: int|
                    #![trigger shards@[p]]
                    0 <= p < total implies erasure::shard_bytes(shards@)[p] == shard_in_place(
                    shreds,
                    i + 1,
                    fec_set_index,
                    num_data as int,
                    p,
                ) by {
                    lemma_place_extends(shreds, i as int, fec_set_index, num_data as int, p);
                    if p != at {
                        assert(shards@[p] == before[p]);
                    }
                }
            }
            i = i + 1;
        }
        assert(erasure::shard_bytes(shards@) =~= shards_of(self@, fec_set_index)->0);
        Some(shards)
    }

    /// Tries to recover the data shreds that are missing. Tells how long computing the shards took,
    /// if it came to that, and how many shreds were recovered.
    pub fn try_recovery(&mut self, slot: u64, fec_set_index: u32) -> (outcome: (
        Option<u64>,
        usize,
    ))
        requires
            old(self).wf(slot, fec_set_index),
        ensures
            final(self)@ == old(self)@.after_recovery(fec_set_index),
            final(self).wf(slot, fec_set_index),
            (outcome.0) is Some == old(self)@.reconstructs(fec_set_index),
            outcome.1 == final(self)@.shreds.len() - old(self)@.shreds.len(),
            outcome.1 <= MAX_SHARDS_PER_SET,
    {
        if !self.can_attempt() {
            return (None, 0);
        }
        self.last_recovery_attempt_size = self.shreds.len();
        let ghost fec = old(self)@;
        assert(self@.shreds == fec.shreds);
        let (num_data, num_code): (usize, usize) = match self.erasure_config {
            Some(config) => config,
            None => return (None, 0),
        };
        let mut shards: Vec<Option<Vec<u8>>> = match self.lay_out(
            slot,
            fec_set_index,
            num_data,
            num_code,
        ) {
            Some(shards) => shards,
            None => return (None, 0),
        };
        let started = clock::now();
        let done: bool = erasure::reconstruct(num_data, num_code, &mut shards);
        let spent: u64 = clock::elapsed_ns(started);
        if !done {
            return (None, 0);
        }
        let ghost full = erasure::shard_bytes(shards@);
        assert(recovered_shards(fec, fec_set_index) == Some(full));
        let mut pending: Vec<WireShred> = Vec::new();
        assert(pending@.map_values(|shred: WireShred| shred@) =~= Seq::empty());
        let mut at: usize = 0;
        while at < num_data
            invariant
                at <= num_data,
                self@.shreds == fec.shreds,
                fec == old(self)@,
                self.wf(slot, fec_set_index),
                self.erasure_config == Some((num_data, num_code)),
                fec.erasure_config == self.erasure_config,
                self.shreds@.len() > 0,
                self@ == (FecView { last_recovery_attempt_size: fec.shreds.len() as usize, ..fec }),
                shards@.len() == num_data + num_code,
                full.len() == num_data + num_code,
                forall|j: int| 0 <= j < full.len() ==> (#[trigger] full[j]) is Some,
                forall|j: int|
                    at <= j < full.len() ==> #[trigger] erasure::shard_bytes(shards@)[j] == full[j],
                recovered_shards(fec, fec_set_index) == Some(full),
                fec.can_attempt(),
                missing_shreds(fec, fec_set_index, full, at as nat) == Some(
                    pending@.map_values(|shred: WireShred| shred@),
                ),
                forall|j: int| 0 <= j < pending@.len() ==> (#[trigger] pending@[j]).wf(),
            decreases num_data - at,
        {
            let index: u32 = fec_set_index + at as u32;
            if !self.has(false, index) {
                assert(erasure::shard_bytes(shards@)[at as int] == full[at as int]);
                let ghost before = shards@;
                let shard: Option<Vec<u8>> = shards[at].take();
                let shard: Vec<u8> = match shard {
                    Some(shard) => shard,
                    None => return (Some(spent), 0),
                };
                assert forall|j: int| at + 1 <= j < full.len() implies #[trigger] erasure::shard_bytes(
                    shards@,
                )[j] == full[j] by {
                    assert(shards@[j] == before[j]);
                    assert(erasure::shard_bytes(before)[j] == full[j]);
                }
                let first: &WireShred = &self.shreds[0];
                assert(fec.shreds[0] == first@);
                let signature: Vec<u8> = wire::copy_range(
                    first.signature.as_slice(),
                    0,
                    first.signature.len(),
                );
                assert(signature@ =~= first@.signature);
                match WireShred::from_recovered_data(
                    shard,
                    first.slot,
                    index,
                    fec_set_index,
                    first.proof_size,
                    first.resigned,
                    signature,
                ) {
                    Some(shred) => {
                        let ghost found = pending@.map_values(|shred: WireShred| shred@);
                        pending.push(shred);
                        assert(pending@.map_values(|shred: WireShred| shred@) =~= found.push(
                            shred@,
                        ));
                    },
                    None => {
                        proof {
                            lemma_missing_stays_missing(
                                fec,
                                fec_set_index,
                                full,
                                (at + 1) as nat,
                                num_data as nat,
                            );
                        }
                        return (Some(spent), 0);
                    },
                }
            }
            at = at + 1;
        }
        let ghost found = pending@.map_values(|shred: WireShred| shred@);
        let recovered: usize = pending.len();
        if recovered > 0 {
            self.recovered_data = true;
        }
        let ghost known = self.shreds@;
        let ghost added = pending@;
        self.shreds.append(&mut pending);
        proof {
            assert(self@.shreds =~= fec.shreds + found);
            lemma_missing_fits(fec, slot, fec_set_index, full, num_data as nat);
            assert(self@.wf(slot, fec_set_index)) by {
                lemma_recovered_wf(fec, slot, fec_set_index, found, self@);
            }
            assert forall|i: int| 0 <= i < self.shreds@.len() implies (
            #[trigger] self.shreds@[i]).wf() by {
                if i < known.len() {
                    assert(self.shreds@[i] == known[i]);
                } else {
                    assert(self.shreds@[i] == added[i - known.len()]);
                }
            }
        }
        (Some(spent), recovered)
    }
}

/// Whether a shred that stands alone has a place in its FEC set and in its slot.
pub open spec fn placed(shred: wire::WireShredView, slot: u64) -> bool {
    &&& shred.slot == slot
    &&& match shred.kind {
        WireKind::Data { .. } => {
            &&& shred.data is Some
            &&& shred.fec_set_index <= shred.index < MAX_DATA_SHREDS_PER_SLOT
        },
        WireKind::Code { num_data, num_code, position } => {
            &&& 0 < num_data
            &&& 0 < num_code
            &&& num_data + num_code <= MAX_SHARDS_PER_SET
            &&& position < num_code
            &&& shred.fec_set_index + num_data <= MAX_DATA_SHREDS_PER_SLOT
        },
    }
}

proof fn lemma_layable_extends(
    shreds: Seq<wire::WireShredView>,
    count: int,
    fec_set_index: u32,
    num_data: int,
)
    requires
        0 <= count < shreds.len(),
        layable(shreds, count, fec_set_index, num_data),
        shreds[count].shard.len() == shreds[0].shard.len(),
        shard_in_place(
            shreds,
            count,
            fec_set_index,
            num_data,
            place(shreds[count], fec_set_index, num_data),
        ) is None,
    ensures
        layable(shreds, count + 1, fec_set_index, num_data),
{
}

proof fn lemma_place_extends(
    shreds: Seq<wire::WireShredView>,
    count: int,
    fec_set_index: u32,
    num_data: int,
    at: int,
)
    requires
        0 <= count < shreds.len(),
        layable(shreds, count + 1, fec_set_index, num_data),
    ensures
        shard_in_place(shreds, count + 1, fec_set_index, num_data, at) == if place(
            shreds[count],
            fec_set_index,
            num_data,
        ) == at {
            Some(shreds[count].shard)
        } else {
            shard_in_place(shreds, count, fec_set_index, num_data, at)
        },
{
    if place(shreds[count], fec_set_index, num_data) != at {
        if exists|i: int|
            0 <= i < count + 1 && place(#[trigger] shreds[i], fec_set_index, num_data) == at {
            let i = choose|i: int|
                0 <= i < count + 1 && place(#[trigger] shreds[i], fec_set_index, num_data) == at;
            assert(0 <= i < count);
        }
        if exists|i: int|
            0 <= i < count && place(#[trigger] shreds[i], fec_set_index, num_data) == at {
            let i = choose|i: int|
                0 <= i < count && place(#[trigger] shreds[i], fec_set_index, num_data) == at;
            let j = choose|j: int|
                0 <= j < count + 1 && place(#[trigger] shreds[j], fec_set_index, num_data) == at;
            assert(i == j);
        }
    }
}

/// Once a shred cannot be made, nothing is found however far the search goes.
proof fn lemma_missing_stays_missing(
    fec: FecView,
    fec_set_index: u32,
    shards: Seq<Option<Seq<u8>>>,
    from: nat,
    to: nat,
)
    requires
        from <= to,
        missing_shreds(fec, fec_set_index, shards, from) is None,
    ensures
        missing_shreds(fec, fec_set_index, shards, to) is None,
    decreases to,
{
    if from < to {
        lemma_missing_stays_missing(fec, fec_set_index, shards, from, (to - 1) as nat);
    }
}

/// A shred that recovery may add to a set.
pub(crate) open spec fn addable(
    shred: wire::WireShredView,
    fec: FecView,
    slot: u64,
    fec_set_index: u32,
    count: int,
) -> bool {
    &&& shred.is_data()
    &&& shred.data is Some
    &&& shred.slot == slot
    &&& shred.fec_set_index == fec_set_index
    &&& fec_set_index <= shred.index < fec_set_index + count
    &&& !fec.has(false, shred.index)
    &&& same_origin(shred, fec.shreds[0])
}

/// What is found is new to the set, fits it, and comes in order.
pub(crate) proof fn lemma_missing_fits(
    fec: FecView,
    slot: u64,
    fec_set_index: u32,
    shards: Seq<Option<Seq<u8>>>,
    count: nat,
)
    requires
        fec.wf(slot, fec_set_index),
        fec.shreds.len() > 0,
        fec_set_index + count <= u32::MAX,
        missing_shreds(fec, fec_set_index, shards, count) is Some,
    ensures
        ({
            let found = missing_shreds(fec, fec_set_index, shards, count)->0;
            &&& found.len() <= count
            &&& forall|k: int|
                0 <= k < found.len() ==> addable(
                    #[trigger] found[k],
                    fec,
                    slot,
                    fec_set_index,
                    count as int,
                )
            &&& forall|j: int, k: int|
                #![trigger found[j], found[k]]
                0 <= j < k < found.len() ==> found[j].index < found[k].index
        }),
    decreases count,
{
    if count > 0 {
        lemma_missing_fits(fec, slot, fec_set_index, shards, (count - 1) as nat);
    }
}

/// Recovery leaves the shreds of a set as they were and adds data shreds behind them.
pub proof fn lemma_recovery_adds(fec: FecView, slot: u64, fec_set_index: u32)
    requires
        fec.wf(slot, fec_set_index),
    ensures
        ({
            let after = fec.after_recovery(fec_set_index);
            &&& fec.shreds.len() <= after.shreds.len()
            &&& after.shreds.take(fec.shreds.len() as int) == fec.shreds
            &&& forall|i: int|
                fec.shreds.len() <= i < after.shreds.len() ==> (#[trigger] after.shreds[i]).is_data()
        }),
{
    let after = fec.after_recovery(fec_set_index);
    if fec.can_attempt() {
        if let Some(found) = recovery(fec, fec_set_index) {
            let shards = recovered_shards(fec, fec_set_index)->0;
            let (num_data, _) = fec.erasure_config->0;
            lemma_missing_fits(fec, slot, fec_set_index, shards, num_data as nat);
            assert forall|i: int| fec.shreds.len() <= i < after.shreds.len() implies (
            #[trigger] after.shreds[i]).is_data() by {
                assert(after.shreds[i] == found[i - fec.shreds.len()]);
            }
        }
    }
    assert(after.shreds.take(fec.shreds.len() as int) =~= fec.shreds);
}

/// Recovery is all or nothing: where it yields anything, the set has every one of its data shreds
/// afterwards.
pub proof fn lemma_recovery_fills(fec: FecView, slot: u64, fec_set_index: u32, position: u32)
    requires
        fec.wf(slot, fec_set_index),
        fec.can_attempt(),
        recovery(fec, fec_set_index) is Some,
        position < (fec.erasure_config->0).0,
    ensures
        fec.after_recovery(fec_set_index).has(false, (fec_set_index + position) as u32),
{
    let after = fec.after_recovery(fec_set_index);
    let found = recovery(fec, fec_set_index)->0;
    let shards = recovered_shards(fec, fec_set_index)->0;
    let index = (fec_set_index + position) as u32;
    lemma_missing_fills(
        fec,
        fec_set_index,
        shards,
        (fec.erasure_config->0).0 as nat,
        position as nat,
    );
    if fec.has(false, index) {
        let i = choose|i: int|
            0 <= i < fec.shreds.len() && (#[trigger] fec.shreds[i]).is_code() == false
                && fec.shreds[i].index == index;
        assert(after.shreds[i] == fec.shreds[i]);
    } else {
        let k = choose|k: int|
            0 <= k < found.len() && (#[trigger] found[k]).is_data() && found[k].index == index;
        assert(after.shreds[fec.shreds.len() + k] == found[k]);
    }
}

proof fn lemma_missing_fills(
    fec: FecView,
    fec_set_index: u32,
    shards: Seq<Option<Seq<u8>>>,
    count: nat,
    position: nat,
)
    requires
        fec_set_index + count <= u32::MAX,
        missing_shreds(fec, fec_set_index, shards, count) is Some,
        position < count,
    ensures
        ({
            let index = (fec_set_index + position) as u32;
            let found = missing_shreds(fec, fec_set_index, shards, count)->0;
            fec.has(false, index) || exists|k: int|
                0 <= k < found.len() && (#[trigger] found[k]).is_data() && found[k].index == index
        }),
    decreases count,
{
    let index = (fec_set_index + position) as u32;
    let found = missing_shreds(fec, fec_set_index, shards, count)->0;
    let fewer = missing_shreds(fec, fec_set_index, shards, (count - 1) as nat)->0;
    if position == count - 1 {
        if !fec.has(false, index) {
            assert(found[found.len() - 1].index == index);
        }
    } else {
        lemma_missing_fills(fec, fec_set_index, shards, (count - 1) as nat, position);
        if !fec.has(false, index) {
            let k = choose|k: int|
                0 <= k < fewer.len() && (#[trigger] fewer[k]).is_data() && fewer[k].index == index;
            assert(found[k] == fewer[k]);
        }
    }
}

/// The shards of the first `count` shreds of a set.
spec fn laid_out(fec: FecView, fec_set_index: u32, count: int) -> Seq<Option<Seq<u8>>> {
    let (num_data, num_code) = fec.erasure_config->0;
    Seq::new(
        (num_data + num_code) as nat,
        |at: int| shard_in_place(fec.shreds, count, fec_set_index, num_data as int, at),
    )
}

/// Filling a gap makes one shard more.
proof fn lemma_one_more_present(shards: Seq<Option<Seq<u8>>>, at: int, shard: Seq<u8>)
    requires
        0 <= at < shards.len(),
        shards[at] is None,
    ensures
        erasure::present(shards.update(at, Some(shard))) == erasure::present(shards) + 1,
    decreases shards.len(),
{
    reveal(Seq::filter);
    let filled = shards.update(at, Some(shard));
    if at == shards.len() - 1 {
        assert(filled.drop_last() =~= shards.drop_last());
    } else {
        lemma_one_more_present(shards.drop_last(), at, shard);
        assert(filled.drop_last() =~= shards.drop_last().update(at, Some(shard)));
    }
}

/// As many shards are there as shreds are laid out.
proof fn lemma_present_is_count(fec: FecView, slot: u64, fec_set_index: u32, count: int)
    requires
        fec.wf(slot, fec_set_index),
        fec.erasure_config is Some,
        0 <= count <= fec.shreds.len(),
        layable(fec.shreds, count, fec_set_index, (fec.erasure_config->0).0 as int),
    ensures
        erasure::present(laid_out(fec, fec_set_index, count)) == count,
    decreases count,
{
    let (num_data, num_code) = fec.erasure_config->0;
    let shards = laid_out(fec, fec_set_index, count);
    if count == 0 {
        lemma_none_present(shards);
    } else {
        let before = laid_out(fec, fec_set_index, count - 1);
        lemma_present_is_count(fec, slot, fec_set_index, count - 1);
        let shred = fec.shreds[count - 1];
        let at = place(shred, fec_set_index, num_data as int);
        assert(fits(shred, fec_set_index, fec.erasure_config));
        assert(0 <= at < before.len());
        assert(before[at] is None);
        assert(shards =~= before.update(at, Some(shred.shard))) by {
            assert forall|k: int| 0 <= k < shards.len() implies shards[k] == before.update(
                at,
                Some(shred.shard),
            )[k] by {
                if k == at {
                    assert(place(fec.shreds[count - 1], fec_set_index, num_data as int) == at);
                    let i = choose|i: int|
                        0 <= i < count && place(
                            #[trigger] fec.shreds[i],
                            fec_set_index,
                            num_data as int,
                        ) == at;
                    assert(i == count - 1);
                } else if before[k] is Some {
                    let i = choose|i: int|
                        0 <= i < count - 1 && place(
                            #[trigger] fec.shreds[i],
                            fec_set_index,
                            num_data as int,
                        ) == k;
                    let j = choose|j: int|
                        0 <= j < count && place(
                            #[trigger] fec.shreds[j],
                            fec_set_index,
                            num_data as int,
                        ) == k;
                    assert(i == j);
                }
            }
        }
        lemma_one_more_present(before, at, shred.shard);
    }
}

/// Of shards that are all missing, none is there.
proof fn lemma_none_present(shards: Seq<Option<Seq<u8>>>)
    requires
        forall|i: int| 0 <= i < shards.len() ==> (#[trigger] shards[i]) is None,
    ensures
        erasure::present(shards) == 0,
    decreases shards.len(),
{
    reveal(Seq::filter);
    if shards.len() > 0 {
        lemma_none_present(shards.drop_last());
    }
}

/// Any shreds of a set suffice to compute its shards, as soon as there are as many of them as the
/// set has data shreds; their shards must be of one length, and lie in different places.
pub proof fn lemma_enough_shreds_suffice(fec: FecView, slot: u64, fec_set_index: u32)
    requires
        fec.wf(slot, fec_set_index),
        fec.erasure_config is Some,
        fec.shreds.len() >= (fec.erasure_config->0).0,
        layable(
            fec.shreds,
            fec.shreds.len() as int,
            fec_set_index,
            (fec.erasure_config->0).0 as int,
        ),
        fec.shreds[0].shard.len() > 0,
    ensures
        recovered_shards(fec, fec_set_index) is Some,
{
    let count = fec.shreds.len() as int;
    let (num_data, num_code) = fec.erasure_config->0;
    let shards = laid_out(fec, fec_set_index, count);
    lemma_present_is_count(fec, slot, fec_set_index, count);
    assert(shards_of(fec, fec_set_index) == Some(shards));
    assert forall|i: int|
        #![trigger shards[i]]
        0 <= i < shards.len() && shards[i] is Some implies shards[i]->0.len()
        == fec.shreds[0].shard.len() by {
        let k = choose|k: int|
            0 <= k < count && place(#[trigger] fec.shreds[k], fec_set_index, num_data as int) == i;
        assert(fec.shreds[k].shard.len() == fec.shreds[0].shard.len());
    }
}

/// A set with what recovery adds is a set still.
proof fn lemma_recovered_wf(
    fec: FecView,
    slot: u64,
    fec_set_index: u32,
    found: Seq<wire::WireShredView>,
    after: FecView,
)
    requires
        after.shreds == fec.shreds + found,
        after.erasure_config == fec.erasure_config,
        fec.wf(slot, fec_set_index),
        fec.erasure_config is Some,
        fec.shreds.len() > 0,
        forall|k: int|
            0 <= k < found.len() ==> addable(
                #[trigger] found[k],
                fec,
                slot,
                fec_set_index,
                (fec.erasure_config->0).0 as int,
            ),
        forall|j: int, k: int|
            #![trigger found[j], found[k]]
            0 <= j < k < found.len() ==> found[j].index < found[k].index,
    ensures
        after.wf(slot, fec_set_index),
{
    let all = fec.shreds + found;
    let n = fec.shreds.len() as int;
    assert forall|i: int| #![trigger all[i]] 0 <= i < all.len() implies all[i].slot == slot
        && all[i].fec_set_index == fec_set_index && fits(
        all[i],
        fec_set_index,
        fec.erasure_config,
    ) && same_origin(all[i], fec.shreds[0]) by {
        if i < n {
            assert(all[i] == fec.shreds[i]);
            assert(i == 0 || same_origin(fec.shreds[0], fec.shreds[i]));
        } else {
            assert(all[i] == found[i - n]);
        }
    }
    assert forall|i: int, j: int| #![trigger all[i], all[j]] 0 <= i < j < all.len() implies !(
    all[i].is_code() == all[j].is_code() && all[i].index == all[j].index) by {
        if j < n {
            assert(all[i] == fec.shreds[i] && all[j] == fec.shreds[j]);
        } else if i < n {
            assert(all[i] == fec.shreds[i] && all[j] == found[j - n]);
        } else {
            assert(all[i] == found[i - n] && all[j] == found[j - n]);
        }
    }
}

/// A set with a shred that it admits is a set still.
pub proof fn lemma_with_wf(fec: FecView, slot: u64, shred: wire::WireShredView)
    requires
        fec.wf(slot, shred.fec_set_index),
        fec.admits(shred),
        placed(shred, slot),
    ensures
        fec.with(shred).wf(slot, shred.fec_set_index),
{
    let after = fec.with(shred);
    let fec_set_index = shred.fec_set_index;
    let n = fec.shreds.len() as int;
    assert forall|i: int| #![trigger after.shreds[i]] 0 <= i < after.shreds.len() implies after.shreds[i].slot
        == slot && after.shreds[i].fec_set_index == fec_set_index && fits(
        after.shreds[i],
        fec_set_index,
        after.erasure_config,
    ) by {
        if i < n {
            assert(after.shreds[i] == fec.shreds[i]);
        }
    }
    assert forall|i: int, j: int|
        #![trigger after.shreds[i], after.shreds[j]]
        0 <= i < j < after.shreds.len() implies same_origin(after.shreds[i], after.shreds[j]) && !(
    after.shreds[i].is_code() == after.shreds[j].is_code() && after.shreds[i].index
        == after.shreds[j].index) by {
        assert(after.shreds[i] == fec.shreds[i]);
        if j < n {
            assert(after.shreds[j] == fec.shreds[j]);
        }
    }
}

/// A set after a try at recovery is a set still.
pub proof fn lemma_after_recovery_wf(fec: FecView, slot: u64, fec_set_index: u32)
    requires
        fec.wf(slot, fec_set_index),
    ensures
        fec.after_recovery(fec_set_index).wf(slot, fec_set_index),
{
    let after = fec.after_recovery(fec_set_index);
    if fec.can_attempt() {
        if let Some(found) = recovery(fec, fec_set_index) {
            let shards = recovered_shards(fec, fec_set_index)->0;
            let (num_data, _) = fec.erasure_config->0;
            lemma_missing_fits(fec, slot, fec_set_index, shards, num_data as nat);
            lemma_recovered_wf(fec, slot, fec_set_index, found, after);
        }
    }
}

/// The shreds of a set are all of one leader's making: they have one signature, proofs of one size,
/// and all of them or none are resigned. No two are the same, and data and code lie in the set.
pub proof fn lemma_shreds_agree(fec: FecView, slot: u64, fec_set_index: u32, i: int, j: int)
    requires
        fec.wf(slot, fec_set_index),
        0 <= i < j < fec.shreds.len(),
    ensures
        ({
            let (a, b) = (fec.shreds[i], fec.shreds[j]);
            &&& a.signature == b.signature
            &&& a.proof_size == b.proof_size
            &&& a.resigned == b.resigned
            &&& a.slot == slot && b.slot == slot
            &&& a.fec_set_index == fec_set_index && b.fec_set_index == fec_set_index
            &&& a.is_data() && b.is_data() ==> a.index != b.index
            &&& a.is_code() && b.is_code() ==> a.index != b.index
            &&& a.kind matches WireKind::Code { num_data, num_code, position } ==> {
                &&& position < num_code
                &&& b.kind matches WireKind::Code { num_data: m, num_code: c, .. } ==> m == num_data
                    && c == num_code
                &&& b.is_data() ==> fec_set_index <= b.index < fec_set_index + num_data
            }
            &&& b.kind matches WireKind::Code { num_data, num_code, .. } ==> a.is_data()
                ==> fec_set_index <= a.index < fec_set_index + num_data
        }),
{
    assert(same_origin(fec.shreds[i], fec.shreds[j]));
}

/// A shred is admitted to a set just where it is new to it and agrees with every shred of it: the
/// signature, the size of the proof, whether it is resigned, and, between data and code, how many
/// data shreds there are.
pub proof fn lemma_admits_what_agrees(fec: FecView, slot: u64, shred: wire::WireShredView)
    requires
        fec.wf(slot, shred.fec_set_index),
        placed(shred, slot),
        fec.erasure_config is Some ==> exists|i: int|
            0 <= i < fec.shreds.len() && (#[trigger] fec.shreds[i]).is_code(),
    ensures
        fec.admits(shred) <==> forall|i: int|
            #![trigger fec.shreds[i]]
            0 <= i < fec.shreds.len() ==> {
                let known = fec.shreds[i];
                &&& known.is_code() == shred.is_code() ==> known.index != shred.index
                &&& known.signature == shred.signature
                &&& known.proof_size == shred.proof_size
                &&& known.resigned == shred.resigned
                &&& match (known.kind, shred.kind) {
                    (WireKind::Data { .. }, WireKind::Data { .. }) => true,
                    (WireKind::Data { .. }, WireKind::Code { num_data, .. }) => known.index
                        - shred.fec_set_index < num_data,
                    (WireKind::Code { num_data, .. }, WireKind::Data { .. }) => shred.index
                        - shred.fec_set_index < num_data,
                    (
                        WireKind::Code { num_data: m, num_code: c, .. },
                        WireKind::Code { num_data, num_code, .. },
                    ) => m == num_data && c == num_code,
                }
            },
{
    let agrees = forall|i: int|
        #![trigger fec.shreds[i]]
        0 <= i < fec.shreds.len() ==> {
            let known = fec.shreds[i];
            &&& known.is_code() == shred.is_code() ==> known.index != shred.index
            &&& known.signature == shred.signature
            &&& known.proof_size == shred.proof_size
            &&& known.resigned == shred.resigned
            &&& match (known.kind, shred.kind) {
                (WireKind::Data { .. }, WireKind::Data { .. }) => true,
                (WireKind::Data { .. }, WireKind::Code { num_data, .. }) => known.index
                    - shred.fec_set_index < num_data,
                (WireKind::Code { num_data, .. }, WireKind::Data { .. }) => shred.index
                    - shred.fec_set_index < num_data,
                (
                    WireKind::Code { num_data: m, num_code: c, .. },
                    WireKind::Code { num_data, num_code, .. },
                ) => m == num_data && c == num_code,
            }
        };
    if fec.admits(shred) {
        assert(agrees) by {
            assert forall|i: int|
                #![trigger fec.shreds[i]]
                0 <= i < fec.shreds.len() implies {
                let known = fec.shreds[i];
                known.is_code() == shred.is_code() ==> known.index != shred.index
            } by {
                if fec.shreds[i].is_code() == shred.is_code() && fec.shreds[i].index
                    == shred.index {
                    assert(fec.has(shred.is_code(), shred.index));
                }
            }
        }
    }
    if agrees {
        assert(!fec.has(shred.is_code(), shred.index));
        if fec.erasure_config is Some {
            let i = choose|i: int| 0 <= i < fec.shreds.len() && (#[trigger] fec.shreds[i]).is_code();
            assert(fits(fec.shreds[i], shred.fec_set_index, fec.erasure_config));
        }
    }
}

} // verus!
