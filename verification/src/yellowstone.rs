//! What a Yellowstone stream is asked for, and what its updates say.

use std::collections::HashMap;

use vstd::prelude::*;

use crate::keys;
use crate::registry::{GrpcLatencyEvent, SlotEvent, SourceId};

verus! {

broadcast use vstd::std_specs::hash::group_hash_axioms;

/// The status of a slot whose first shred has been received.
pub const SLOT_FIRST_SHRED_RECEIVED: i32 = 3;

/// How many slots behind the newest one entries are kept of.
pub const ENTRY_RETENTION: u64 = 300;

/// An entry as it was delivered.
#[derive(Debug, Clone, Copy, PartialEq, Eq, Structural)]
pub struct EntryRecord {
    pub starting_tx_index: u64,
    pub tx_count: u64,
    pub received_at: u64,
}

/// The entries that are known of, by their slots.
#[verifier::ext_equal]
pub struct EntriesView {
    pub slots: Map<u64, Seq<EntryRecord>>,
    pub max_slot_seen: u64,
}

impl EntriesView {
    /// With one more entry, and without the slots that are too old by then.
    pub open spec fn with(self, slot: u64, entry: EntryRecord) -> EntriesView {
        let max_slot_seen = if slot > self.max_slot_seen {
            slot
        } else {
            self.max_slot_seen
        };
        let slots = self.slots.insert(
            slot,
            if self.slots.contains_key(slot) {
                self.slots[slot].push(entry)
            } else {
                seq![entry]
            },
        );
        EntriesView {
            slots: if max_slot_seen > ENTRY_RETENTION {
                slots.restrict(keys::from((max_slot_seen - ENTRY_RETENTION) as u64))
            } else {
                slots
            },
            max_slot_seen,
        }
    }

    /// The entries of a slot.
    pub open spec fn of(self, slot: u64) -> Seq<EntryRecord> {
        if self.slots.contains_key(slot) {
            self.slots[slot]
        } else {
            Seq::empty()
        }
    }
}

/// When the last of the entries was delivered that were not delivered after `at`.
pub open spec fn latest_until(entries: Seq<EntryRecord>, at: u64) -> Option<u64>
    decreases entries.len(),
{
    if entries.len() == 0 {
        None
    } else {
        let before = latest_until(entries.drop_last(), at);
        let last = entries.last().received_at;
        if last > at {
            before
        } else {
            match before {
                Some(known) if known > last => Some(known),
                _ => Some(last),
            }
        }
    }
}

/// How long an account update came behind the entry that caused it: the last one of its slot that
/// was delivered before.
pub open spec fn overhead(entries: Seq<EntryRecord>, at: u64) -> Option<u64> {
    match latest_until(entries, at) {
        Some(entry_at) => Some((at - entry_at) as u64),
        None => None,
    }
}

/// Follows the entries of a stream.
pub struct EntryTracker {
    slots: HashMap<u64, Vec<EntryRecord>>,
    max_slot_seen: u64,
}

impl View for EntryTracker {
    type V = EntriesView;

    closed spec fn view(&self) -> EntriesView {
        EntriesView {
            slots: self.slots@.map_values(|entries: Vec<EntryRecord>| entries@),
            max_slot_seen: self.max_slot_seen,
        }
    }
}

impl Default for EntryTracker {
    fn default() -> (tracker: Self)
        ensures
            tracker@ == (EntriesView { slots: Map::empty(), max_slot_seen: 0 }),
    {
        let tracker = EntryTracker { slots: HashMap::new(), max_slot_seen: 0 };
        assert(tracker@.slots =~= Map::empty());
        tracker
    }
}

/// When the last of the entries was delivered that were not delivered after `at`.
fn find_latest(entries: &Vec<EntryRecord>, at: u64) -> (latest: Option<u64>)
    ensures
        latest == latest_until(entries@, at),
{
    let mut latest: Option<u64> = None;
    let mut n: usize = 0;
    while n < entries.len()
        invariant
            n <= entries@.len(),
            latest == latest_until(entries@.take(n as int), at),
        decreases entries@.len() - n,
    {
        assert(entries@.take(n + 1).drop_last() =~= entries@.take(n as int));
        let received_at: u64 = entries[n].received_at;
        if received_at <= at {
            match latest {
                Some(known) if known > received_at => {},
                _ => {
                    latest = Some(received_at);
                },
            }
        }
        n = n + 1;
    }
    assert(entries@.take(n as int) =~= entries@);
    latest
}

impl EntryTracker {
    /// Takes in an entry.
    pub fn on_entry(&mut self, slot: u64, entry: EntryRecord)
        ensures
            final(self)@ == old(self)@.with(slot, entry),
    {
        let ghost before = self@;
        if slot > self.max_slot_seen {
            self.max_slot_seen = slot;
        }
        let mut entries: Vec<EntryRecord> = match self.slots.remove(&slot) {
            Some(entries) => entries,
            None => Vec::new(),
        };
        entries.push(entry);
        let ghost listed = entries@;
        assert(listed =~= if before.slots.contains_key(slot) {
            before.slots[slot].push(entry)
        } else {
            seq![entry]
        });
        self.slots.insert(slot, entries);
        assert(self@.slots =~= before.slots.insert(slot, listed));
        let ghost longer = self@.slots;
        if self.max_slot_seen > ENTRY_RETENTION {
            let oldest: u64 = self.max_slot_seen - ENTRY_RETENTION;
            keys::remove_keys_below(&mut self.slots, oldest);
            assert(self@.slots =~= longer.restrict(keys::from(oldest)));
        }
        assert(self@ =~= before.with(slot, entry));
    }

    /// How long an account update came behind the entry that caused it.
    pub fn overhead_of(&self, slot: u64, at: u64) -> (latency: Option<u64>)
        ensures
            latency == overhead(self@.of(slot), at),
    {
        match self.slots.get(&slot) {
            Some(entries) => {
                proof {
                    lemma_latest_is_not_after(entries@, at);
                }
                match find_latest(entries, at) {
                    Some(entry_at) => Some(at - entry_at),
                    None => None,
                }
            },
            None => None,
        }
    }
}

/// The entry that counts was delivered before the account update, and none was delivered later
/// and yet before it.
pub proof fn lemma_latest_is_not_after(entries: Seq<EntryRecord>, at: u64)
    ensures
        match latest_until(entries, at) {
            Some(latest) => {
                &&& latest <= at
                &&& exists|i: int|
                    0 <= i < entries.len() && (#[trigger] entries[i]).received_at == latest
                &&& forall|i: int|
                    0 <= i < entries.len() && (#[trigger] entries[i]).received_at <= at
                        ==> entries[i].received_at <= latest
            },
            None => forall|i: int|
                0 <= i < entries.len() ==> (#[trigger] entries[i]).received_at > at,
        },
    decreases entries.len(),
{
    if entries.len() > 0 {
        let rest = entries.drop_last();
        lemma_latest_is_not_after(rest, at);
        assert forall|i: int| 0 <= i < rest.len() implies rest[i] == #[trigger] entries[i] by {}
        assert(entries[entries.len() - 1] == entries.last());
        if let Some(latest) = latest_until(rest, at) {
            let i = choose|i: int|
                0 <= i < rest.len() && (#[trigger] rest[i]).received_at == latest;
            assert(entries[i] == rest[i]);
        }
    }
}

/// Whether account updates, and the entries that they are measured from, are subscribed to: an
/// account is given, and there is a source to record its updates under.
pub fn subscribes_to_account(account_pubkey: &str, account_source: Option<SourceId>) -> (yes: bool)
    ensures
        yes == (account_pubkey@.len() > 0 && account_source is Some),
{
    account_pubkey.unicode_len() > 0 && account_source.is_some()
}

/// The commitment that delivers account updates as early as they can be.
pub const PROCESSED: i32 = 0;

/// Which updates of slots are asked for.
#[derive(Debug, Clone, Copy, PartialEq, Eq, Structural)]
pub struct SlotFilter {
    pub filter_by_commitment: Option<bool>,
    pub interslot_updates: Option<bool>,
}

/// Of which accounts updates are asked for: of those that are named, and of those of the owners
/// that are.
#[derive(Debug)]
pub struct AccountFilter {
    pub account: Vec<String>,
    pub owner: Vec<String>,
}

/// What a stream is asked for, by the names of the filters. Nothing else is asked for.
#[derive(Debug)]
pub struct StreamRequest {
    pub slots: Vec<(String, SlotFilter)>,
    pub accounts: Vec<(String, AccountFilter)>,
    pub entry: Vec<String>,
    pub commitment: Option<i32>,
    /// The token that is sent along.
    pub x_token: Option<String>,
}

#[verifier::ext_equal]
pub struct AccountFilterView {
    pub account: Seq<Seq<char>>,
    pub owner: Seq<Seq<char>>,
}

#[verifier::ext_equal]
pub struct StreamRequestView {
    pub slots: Seq<(Seq<char>, SlotFilter)>,
    pub accounts: Seq<(Seq<char>, AccountFilterView)>,
    pub entry: Seq<Seq<char>>,
    pub commitment: Option<i32>,
    pub x_token: Option<Seq<char>>,
}

pub open spec fn texts(list: Seq<String>) -> Seq<Seq<char>> {
    list.map_values(|text: String| text@)
}

impl View for AccountFilter {
    type V = AccountFilterView;

    open spec fn view(&self) -> AccountFilterView {
        AccountFilterView { account: texts(self.account@), owner: texts(self.owner@) }
    }
}

impl View for StreamRequest {
    type V = StreamRequestView;

    open spec fn view(&self) -> StreamRequestView {
        StreamRequestView {
            slots: self.slots@.map_values(|filter: (String, SlotFilter)| (filter.0@, filter.1)),
            accounts: self.accounts@.map_values(
                |filter: (String, AccountFilter)| (filter.0@, filter.1@),
            ),
            entry: texts(self.entry@),
            commitment: self.commitment,
            x_token: match self.x_token {
                Some(token) => Some(token@),
                None => None,
            },
        }
    }
}

/// What a stream is asked for: every update of every slot; where account updates are subscribed to,
/// also those of the account alone and all entries, as soon as they are processed; and a token is
/// sent along where one is given.
pub open spec fn asked_for(
    account_pubkey: Seq<char>,
    account_source: Option<SourceId>,
    x_token: Seq<char>,
) -> StreamRequestView {
    let slots = seq![
        (
            "bench"@,
            SlotFilter { filter_by_commitment: None, interslot_updates: Some(true) },
        ),
    ];
    let x_token = if x_token.len() > 0 {
        Some(x_token)
    } else {
        None
    };
    if account_pubkey.len() > 0 && account_source is Some {
        StreamRequestView {
            slots,
            accounts: seq![
                (
                    "bench_account"@,
                    AccountFilterView { account: seq![account_pubkey], owner: Seq::empty() },
                ),
            ],
            entry: seq!["bench_entry"@],
            commitment: Some(PROCESSED),
            x_token,
        }
    } else {
        StreamRequestView {
            slots,
            accounts: Seq::empty(),
            entry: Seq::empty(),
            commitment: None,
            x_token,
        }
    }
}

/// What to ask a stream for.
pub fn stream_request(
    account_pubkey: &str,
    account_source: Option<SourceId>,
    x_token: &str,
) -> (request: StreamRequest)
    ensures
        request@ == asked_for(account_pubkey@, account_source, x_token@),
{
    let mut request = StreamRequest {
        slots: Vec::new(),
        accounts: Vec::new(),
        entry: Vec::new(),
        commitment: None,
        x_token: None,
    };
    request.slots.push(
        (
            String::from_str("bench"),
            SlotFilter { filter_by_commitment: None, interslot_updates: Some(true) },
        ),
    );
    if x_token.unicode_len() > 0 {
        request.x_token = Some(String::from_str(x_token));
    }
    if subscribes_to_account(account_pubkey, account_source) {
        let mut filter = AccountFilter { account: Vec::new(), owner: Vec::new() };
        filter.account.push(String::from_str(account_pubkey));
        assert(texts(filter.account@) =~= seq![account_pubkey@]);
        assert(texts(filter.owner@) =~= Seq::empty());
        request.accounts.push((String::from_str("bench_account"), filter));
        request.entry.push(String::from_str("bench_entry"));
        request.commitment = Some(PROCESSED);
    }
    assert(request@ =~= asked_for(account_pubkey@, account_source, x_token@));
    request
}

/// The sign of a slot that a status update gives.
pub open spec fn sign_of(status: i32, slot: u64, source: SourceId, received_at: u64) -> Option<
    SlotEvent,
> {
    if status == SLOT_FIRST_SHRED_RECEIVED {
        Some(SlotEvent { source, slot, received_at })
    } else {
        None
    }
}

/// What an account update gives, where these entries of its slot are known.
pub open spec fn update_gives(
    entries: Seq<EntryRecord>,
    slot: u64,
    is_startup: bool,
    source: Option<SourceId>,
    received_at: u64,
) -> (Option<SlotEvent>, Option<GrpcLatencyEvent>) {
    match source {
        Some(source) if !is_startup => (
            Some(SlotEvent { source, slot, received_at }),
            match overhead(entries, received_at) {
                Some(latency_ns) => Some(GrpcLatencyEvent { source, latency_ns }),
                None => None,
            },
        ),
        _ => (None, None),
    }
}

/// The sign of a slot that a status update gives: that the first shred has been received.
pub fn on_slot_status(status: i32, slot: u64, source: SourceId, received_at: u64) -> (event: Option<
    SlotEvent,
>)
    ensures
        event == (if status == SLOT_FIRST_SHRED_RECEIVED {
            Some(SlotEvent { source, slot, received_at })
        } else {
            None
        }),
        event == sign_of(status, slot, source, received_at),
{
    if status == SLOT_FIRST_SHRED_RECEIVED {
        Some(SlotEvent { source, slot, received_at })
    } else {
        None
    }
}

/// What an account update gives: a sign of its slot, and, where an entry is known that it came
/// from, how long it took. The updates that a stream starts with give nothing.
pub fn on_account(
    tracker: &EntryTracker,
    slot: u64,
    is_startup: bool,
    source: Option<SourceId>,
    received_at: u64,
) -> (events: (Option<SlotEvent>, Option<GrpcLatencyEvent>))
    ensures
        match source {
            Some(source) if !is_startup => {
                &&& events.0 == Some(SlotEvent { source, slot, received_at })
                &&& events.1 == (match overhead(tracker@.of(slot), received_at) {
                    Some(latency_ns) => Some(GrpcLatencyEvent { source, latency_ns }),
                    None => None,
                })
            },
            _ => events.0 is None && events.1 is None,
        },
        events == update_gives(tracker@.of(slot), slot, is_startup, source, received_at),
{
    match source {
        Some(source) if !is_startup => {
            let latency: Option<GrpcLatencyEvent> = match tracker.overhead_of(slot, received_at) {
                Some(latency_ns) => Some(GrpcLatencyEvent { source, latency_ns }),
                None => None,
            };
            (Some(SlotEvent { source, slot, received_at }), latency)
        },
        _ => (None, None),
    }
}

/// Entries are kept of no more slots than there are from the oldest kept to the newest one.
pub proof fn lemma_entries_are_bounded(view: EntriesView, slot: u64, entry: EntryRecord)
    ensures
        ({
            let after = view.with(slot, entry);
            forall|s: u64| #[trigger]
                after.slots.contains_key(s) ==> s + ENTRY_RETENTION >= after.max_slot_seen
        }),
{
}

/// What is known of the first `count` entries, each of which is of a slot.
pub open spec fn entries_after(delivered: Seq<(u64, EntryRecord)>, count: int) -> EntriesView
    decreases count,
{
    if count <= 0 {
        EntriesView { slots: Map::empty(), max_slot_seen: 0 }
    } else {
        let (slot, entry) = delivered[count - 1];
        entries_after(delivered, count - 1).with(slot, entry)
    }
}

/// The entries of one slot among the first `count`, in the order in which they were delivered.
pub open spec fn delivered_of(delivered: Seq<(u64, EntryRecord)>, count: int, slot: u64) -> Seq<
    EntryRecord,
>
    decreases count,
{
    if count <= 0 {
        Seq::empty()
    } else {
        let before = delivered_of(delivered, count - 1, slot);
        if delivered[count - 1].0 == slot {
            before.push(delivered[count - 1].1)
        } else {
            before
        }
    }
}

/// All entries of a slot are known, and none of another, until one has come of a slot that is more
/// than three hundred later; none is known from then on.
pub proof fn lemma_entries_are_known(
    delivered: Seq<(u64, EntryRecord)>,
    count: int,
    slot: u64,
)
    requires
        0 <= count <= delivered.len(),
    ensures
        entries_after(delivered, count).of(slot) == (if exists|j: int|
            0 <= j < count && slot + 300 < (#[trigger] delivered[j]).0 {
            Seq::empty()
        } else {
            delivered_of(delivered, count, slot)
        }),
        slot + 300 < entries_after(delivered, count).max_slot_seen <==> exists|j: int|
            0 <= j < count && slot + 300 < (#[trigger] delivered[j]).0,
    decreases count,
{
    if count > 0 {
        lemma_entries_are_known(delivered, count - 1, slot);
        let before = entries_after(delivered, count - 1);
        let after = entries_after(delivered, count);
        let (last, entry) = delivered[count - 1];
        if exists|j: int| 0 <= j < count - 1 && slot + 300 < (#[trigger] delivered[j]).0 {
            let j = choose|j: int| 0 <= j < count - 1 && slot + 300 < (#[trigger] delivered[j]).0;
            assert(slot + 300 < delivered[j].0);
        }
        if slot + 300 < last {
            assert(slot + 300 < delivered[count - 1].0);
        }
        if slot == last {
            if before.of(slot).len() == 0 {
                assert(seq![entry] =~= before.of(slot).push(entry));
            }
            assert(delivered_of(delivered, count, slot) =~= delivered_of(
                delivered,
                count - 1,
                slot,
            ).push(entry));
        }
        if slot + 300 < after.max_slot_seen {
            assert(!after.slots.contains_key(slot));
            assert(after.of(slot) =~= Seq::empty());
        } else {
            if after.max_slot_seen > ENTRY_RETENTION {
                assert(keys::from((after.max_slot_seen - ENTRY_RETENTION) as u64).contains(slot));
            }
        }
    }
}

/// An account update is measured from the last entry that was delivered before it: the two are as
/// far apart as is told, and no entry lies between them. Where no entry was delivered before,
/// nothing is told.
pub proof fn lemma_overhead_is_from_last_entry(entries: Seq<EntryRecord>, at: u64)
    ensures
        match overhead(entries, at) {
            Some(ns) => {
                &&& exists|i: int|
                    0 <= i < entries.len() && (#[trigger] entries[i]).received_at + ns == at
                &&& forall|i: int|
                    #![trigger entries[i]]
                    0 <= i < entries.len() && entries[i].received_at <= at
                        ==> entries[i].received_at + ns <= at
            },
            None => forall|i: int|
                #![trigger entries[i]]
                0 <= i < entries.len() ==> at < entries[i].received_at,
        },
{
    lemma_latest_is_not_after(entries, at);
    if let Some(latest) = latest_until(entries, at) {
        let i = choose|i: int|
            0 <= i < entries.len() && (#[trigger] entries[i]).received_at == latest;
        assert(entries[i].received_at + overhead(entries, at)->0 == at);
    }
}

/// What a stream can say of a slot.
pub enum SlotStatus {
    Processed,
    Confirmed,
    Finalized,
    FirstShredReceived,
    Completed,
    CreatedBank,
    Dead,
}

impl SlotStatus {
    /// The number by which it is said.
    pub open spec fn number(self) -> int {
        match self {
            SlotStatus::Processed => 0,
            SlotStatus::Confirmed => 1,
            SlotStatus::Finalized => 2,
            SlotStatus::FirstShredReceived => 3,
            SlotStatus::Completed => 4,
            SlotStatus::CreatedBank => 5,
            SlotStatus::Dead => 6,
        }
    }
}

/// Of all that a stream can say of a slot, the one thing that is a sign of it is that the first
/// shred was received; the sign is of that slot, from that source and at that time.
pub proof fn lemma_only_first_shreds_are_signs(
    status: SlotStatus,
    slot: u64,
    source: SourceId,
    received_at: u64,
)
    ensures
        match sign_of(status.number() as i32, slot, source, received_at) {
            Some(sign) => status is FirstShredReceived && sign.slot == slot && sign.source == source
                && sign.received_at == received_at,
            None => !(status is FirstShredReceived),
        },
{
}

/// An account update is a sign of its slot, unless it is one that a stream starts with; and it is
/// measured from the last entry of its slot that was delivered before, if there is one.
pub proof fn lemma_updates_are_signs(
    entries: Seq<EntryRecord>,
    slot: u64,
    is_startup: bool,
    source: Option<SourceId>,
    received_at: u64,
)
    ensures
        ({
            let (sign, latency) = update_gives(entries, slot, is_startup, source, received_at);
            &&& is_startup || source is None ==> sign is None && latency is None
            &&& !is_startup && source is Some ==> {
                &&& sign matches Some(sign) && sign.slot == slot && sign.source == source->0
                    && sign.received_at == received_at
                &&& latency is Some <==> exists|i: int|
                    0 <= i < entries.len() && (#[trigger] entries[i]).received_at <= received_at
                &&& latency matches Some(latency) ==> {
                    &&& latency.source == source->0
                    &&& exists|i: int|
                        0 <= i < entries.len() && (#[trigger] entries[i]).received_at
                            + latency.latency_ns == received_at
                    &&& forall|i: int|
                        #![trigger entries[i]]
                        0 <= i < entries.len() && entries[i].received_at <= received_at
                            ==> entries[i].received_at + latency.latency_ns <= received_at
                }
            }
        }),
{
    lemma_overhead_is_from_last_entry(entries, received_at);
    if let Some(ns) = overhead(entries, received_at) {
        let i = choose|i: int|
            0 <= i < entries.len() && (#[trigger] entries[i]).received_at + ns == received_at;
        assert(entries[i].received_at <= received_at);
    }
}

/// A stream is asked for every update of every slot, between slots as well. It is asked for account
/// updates just where there is an account and a source for them; then of that account alone, by no
/// owner, with the entries, and as early as they are processed.
pub proof fn lemma_asked_for_what_is_measured(
    account_pubkey: Seq<char>,
    account_source: Option<SourceId>,
    x_token: Seq<char>,
)
    ensures
        ({
            let asked = asked_for(account_pubkey, account_source, x_token);
            let measured = account_pubkey.len() > 0 && account_source is Some;
            &&& asked.slots.len() == 1
            &&& asked.slots[0].1.filter_by_commitment is None
            &&& asked.slots[0].1.interslot_updates == Some(true)
            &&& asked.accounts.len() == if measured {
                1nat
            } else {
                0nat
            }
            &&& asked.entry.len() == asked.accounts.len()
            &&& measured ==> asked.accounts[0].1.account == seq![account_pubkey]
                && asked.accounts[0].1.owner.len() == 0
            &&& asked.commitment == if measured {
                Some(0i32)
            } else {
                None
            }
            &&& asked.x_token == if x_token.len() == 0 {
                None
            } else {
                Some(x_token)
            }
        }),
{
}

} // verus!
