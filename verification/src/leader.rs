//! Which slots a validator leads, out of what an RPC node says.

use std::collections::HashSet;

use vstd::prelude::*;

verus! {

broadcast use vstd::std_specs::hash::group_hash_axioms;

/// A JSON value.
pub enum Json {
    Null,
    Bool(bool),
    /// A number that is an unsigned integer of 64 bits.
    Unsigned(u64),
    /// Any other number.
    OtherNumber,
    Text(String),
    List(Vec<Json>),
    /// The fields of an object.
    Object(Vec<(String, Json)>),
}

/// A reply of an RPC node.
pub struct RpcResponse {
    pub result: Option<Json>,
    pub error: Option<Json>,
}

/// Why a validator's slots are not known.
#[derive(Debug, Clone, Copy, PartialEq, Eq, Structural)]
pub enum LeaderError {
    /// The node answered with an error.
    Rpc,
    /// The reply has no result.
    NoResult,
    /// The leader schedule is not an object.
    NotAnObject,
    /// The validator leads no slot in the epoch.
    NoSlots,
    /// The epoch information lacks the current slot.
    NoAbsoluteSlot,
    /// The epoch information lacks the place of the current slot in the epoch.
    NoSlotIndex,
    /// The place of the current slot in the epoch is beyond the slot itself.
    PlaceBeyondSlot,
    /// A slot of the schedule is beyond all slot numbers.
    SlotTooLarge,
    /// All slots that the validator leads are past; this is how many there are.
    AllPast(usize),
}

/// Where an object has a field.
pub open spec fn is_field_at(fields: Seq<(String, Json)>, name: Seq<char>, at: int) -> bool {
    &&& 0 <= at < fields.len()
    &&& fields[at].0@ == name
    &&& forall|i: int| 0 <= i < at ==> (#[trigger] fields[i]).0@ != name
}

/// A field of a value; only an object has any.
pub open spec fn field(value: Json, name: Seq<char>) -> Option<Json> {
    match value {
        Json::Object(fields) => if exists|at: int| is_field_at(fields@, name, at) {
            Some(fields@[choose|at: int| is_field_at(fields@, name, at)].1)
        } else {
            None
        },
        _ => None,
    }
}

/// A field that is an unsigned number.
pub open spec fn unsigned_field(value: Json, name: Seq<char>) -> Option<u64> {
    match field(value, name) {
        Some(Json::Unsigned(n)) => Some(n),
        _ => None,
    }
}

/// The unsigned numbers in a list, in their order.
pub open spec fn unsigned_in(list: Seq<Json>) -> Seq<u64>
    decreases list.len(),
{
    if list.len() == 0 {
        Seq::empty()
    } else {
        match list.last() {
            Json::Unsigned(n) => unsigned_in(list.drop_last()).push(n),
            _ => unsigned_in(list.drop_last()),
        }
    }
}

/// The places in the epoch of the slots that a validator leads, where a leader schedule has any.
pub open spec fn places_in(schedule: Json, pubkey: Seq<char>) -> Seq<u64> {
    match field(schedule, pubkey) {
        Some(Json::List(list)) => unsigned_in(list@),
        _ => Seq::empty(),
    }
}

impl Json {
    /// A field of the value.
    pub fn get(&self, name: &str) -> (found: Option<&Json>)
        ensures
            match found {
                Some(value) => field(*self, name@) == Some(*value),
                None => field(*self, name@) is None,
            },
    {
        let fields: &Vec<(String, Json)> = match self {
            Json::Object(fields) => fields,
            _ => return None,
        };
        let wanted: String = name.to_owned();
        let mut n: usize = 0;
        while n < fields.len()
            invariant
                n <= fields@.len(),
                wanted@ == name@,
                *self == Json::Object(*fields),
                forall|i: int| 0 <= i < n ==> (#[trigger] fields@[i]).0@ != name@,
            decreases fields@.len() - n,
        {
            if fields[n].0 == wanted {
                proof {
                    assert(is_field_at(fields@, name@, n as int));
                    let at = choose|at: int| is_field_at(fields@, name@, at);
                    assert(fields@[at].0@ == name@ && fields@[n as int].0@ == name@);
                    assert(at == n);
                }
                return Some(&fields[n].1);
            }
            n = n + 1;
        }
        None
    }
}

/// The places in the epoch of the slots that a validator leads, where a reply gives any.
pub open spec fn indices_in(reply: RpcResponse, pubkey: Seq<char>) -> Result<
    Seq<u64>,
    LeaderError,
> {
    if reply.error is Some {
        Err(LeaderError::Rpc)
    } else if reply.result is None {
        Err(LeaderError::NoResult)
    } else if !(reply.result->0 is Object) {
        Err(LeaderError::NotAnObject)
    } else if places_in(reply.result->0, pubkey).len() == 0 {
        Err(LeaderError::NoSlots)
    } else {
        Ok(places_in(reply.result->0, pubkey))
    }
}

/// The places in the epoch of the slots that a validator leads, out of the reply to
/// `getLeaderSchedule`.
pub fn slot_indices(reply: &RpcResponse, pubkey: &str) -> (places: Result<Vec<u64>, LeaderError>)
    ensures
        match places {
            Ok(places) => {
                &&& reply.error is None
                &&& reply.result is Some
                &&& reply.result->0 is Object
                &&& places@ == places_in(reply.result->0, pubkey@)
                &&& places@.len() > 0
            },
            Err(LeaderError::Rpc) => reply.error is Some,
            Err(LeaderError::NoResult) => reply.error is None && reply.result is None,
            Err(LeaderError::NotAnObject) => reply.error is None && reply.result is Some
                && !(reply.result->0 is Object),
            Err(LeaderError::NoSlots) => reply.error is None && reply.result is Some
                && reply.result->0 is Object && places_in(reply.result->0, pubkey@).len() == 0,
            Err(_) => false,
        },
        match places {
            Ok(places) => indices_in(*reply, pubkey@) == Ok::<Seq<u64>, LeaderError>(places@),
            Err(error) => indices_in(*reply, pubkey@) == Err::<Seq<u64>, LeaderError>(error),
        },
{
    if reply.error.is_some() {
        return Err(LeaderError::Rpc);
    }
    let schedule: &Json = match &reply.result {
        Some(schedule) => schedule,
        None => return Err(LeaderError::NoResult),
    };
    match schedule {
        Json::Object(_) => {},
        _ => return Err(LeaderError::NotAnObject),
    }
    let mut places: Vec<u64> = Vec::new();
    if let Some(Json::List(list)) = schedule.get(pubkey) {
        let mut n: usize = 0;
        while n < list.len()
            invariant
                n <= list@.len(),
                places@ == unsigned_in(list@.take(n as int)),
            decreases list@.len() - n,
        {
            assert(list@.take(n + 1).drop_last() =~= list@.take(n as int));
            if let Json::Unsigned(place) = &list[n] {
                places.push(*place);
            }
            n = n + 1;
        }
        assert(list@.take(n as int) =~= list@);
    }
    if places.len() == 0 {
        return Err(LeaderError::NoSlots);
    }
    Ok(places)
}

/// The current slot and its place in the epoch, where a reply gives them.
pub open spec fn position_in(reply: RpcResponse) -> Result<(u64, u64), LeaderError> {
    if reply.error is Some {
        Err(LeaderError::Rpc)
    } else if reply.result is None {
        Err(LeaderError::NoResult)
    } else {
        match (
            unsigned_field(reply.result->0, "absoluteSlot"@),
            unsigned_field(reply.result->0, "slotIndex"@),
        ) {
            (None, _) => Err(LeaderError::NoAbsoluteSlot),
            (_, None) => Err(LeaderError::NoSlotIndex),
            (Some(absolute_slot), Some(slot_index)) => Ok((absolute_slot, slot_index)),
        }
    }
}

/// The current slot and its place in the epoch, out of the reply to `getEpochInfo`.
pub fn epoch_position(reply: &RpcResponse) -> (position: Result<(u64, u64), LeaderError>)
    ensures
        match position {
            Ok((absolute_slot, slot_index)) => {
                &&& reply.error is None
                &&& reply.result is Some
                &&& unsigned_field(reply.result->0, "absoluteSlot"@) == Some(absolute_slot)
                &&& unsigned_field(reply.result->0, "slotIndex"@) == Some(slot_index)
            },
            Err(LeaderError::Rpc) => reply.error is Some,
            Err(LeaderError::NoResult) => reply.error is None && reply.result is None,
            Err(LeaderError::NoAbsoluteSlot) => reply.error is None && reply.result is Some
                && unsigned_field(reply.result->0, "absoluteSlot"@) is None,
            Err(LeaderError::NoSlotIndex) => reply.error is None && reply.result is Some
                && unsigned_field(reply.result->0, "absoluteSlot"@) is Some && unsigned_field(
                reply.result->0,
                "slotIndex"@,
            ) is None,
            Err(_) => false,
        },
        position == position_in(*reply),
{
    if reply.error.is_some() {
        return Err(LeaderError::Rpc);
    }
    let info: &Json = match &reply.result {
        Some(info) => info,
        None => return Err(LeaderError::NoResult),
    };
    let absolute_slot: u64 = match info.get("absoluteSlot") {
        Some(Json::Unsigned(n)) => *n,
        _ => return Err(LeaderError::NoAbsoluteSlot),
    };
    let slot_index: u64 = match info.get("slotIndex") {
        Some(Json::Unsigned(n)) => *n,
        _ => return Err(LeaderError::NoSlotIndex),
    };
    Ok((absolute_slot, slot_index))
}

/// The slots of an epoch that starts with `first`, by their places in it.
pub open spec fn slots_at(places: Seq<u64>, first: int) -> Set<u64> {
    Set::new(
        |slot: u64| exists|i: int| 0 <= i < places.len() && slot == first + #[trigger] places[i],
    )
}

/// The slots behind the current one.
pub open spec fn upcoming(slots: Set<u64>, current: u64) -> Set<u64> {
    Set::new(|slot: u64| slots.contains(slot) && slot > current)
}

/// The slots that a validator leads.
pub struct LeaderSlots {
    pub slots: HashSet<u64>,
    /// How many of them are still to come.
    pub upcoming: usize,
    /// The first of those that are still to come.
    pub next: u64,
}

/// Whether `led` says which slots a validator leads whose places in the epoch are `places`.
pub open spec fn led_from(
    led: Result<LeaderSlots, LeaderError>,
    places: Seq<u64>,
    absolute_slot: u64,
    slot_index: u64,
) -> bool {
    let slots = slots_at(places, absolute_slot - slot_index);
    let coming = upcoming(slots, absolute_slot);
    match led {
        Ok(led) => {
            &&& led.slots@ == slots
            &&& led.upcoming == coming.len()
            &&& coming.contains(led.next)
            &&& forall|slot: u64| #[trigger] coming.contains(slot) ==> led.next <= slot
        },
        Err(LeaderError::AllPast(count)) => {
            &&& coming == Set::<u64>::empty()
            &&& count == slots.len()
        },
        Err(_) => false,
    }
}

/// Whether every place in an epoch that starts with `first` is that of a slot.
pub open spec fn all_slots(places: Seq<u64>, first: int) -> bool {
    forall|i: int| 0 <= i < places.len() ==> first + #[trigger] places[i] <= u64::MAX
}

/// The slots that a validator leads, by their places in the epoch. The places are not taken at
/// their word.
pub fn checked_leader_slots(places: &Vec<u64>, absolute_slot: u64, slot_index: u64) -> (led: Result<
    LeaderSlots,
    LeaderError,
>)
    ensures
        match led {
            Err(LeaderError::PlaceBeyondSlot) => slot_index > absolute_slot,
            Err(LeaderError::SlotTooLarge) => slot_index <= absolute_slot && !all_slots(
                places@,
                absolute_slot - slot_index,
            ),
            _ => {
                &&& slot_index <= absolute_slot
                &&& all_slots(places@, absolute_slot - slot_index)
                &&& led_from(led, places@, absolute_slot, slot_index)
            },
        },
{
    if slot_index > absolute_slot {
        return Err(LeaderError::PlaceBeyondSlot);
    }
    let first: u64 = absolute_slot - slot_index;
    let mut n: usize = 0;
    while n < places.len()
        invariant
            n <= places@.len(),
            slot_index <= absolute_slot,
            first == absolute_slot - slot_index,
            forall|i: int| 0 <= i < n ==> first + #[trigger] places@[i] <= u64::MAX,
        decreases places@.len() - n,
    {
        if places[n] > u64::MAX - first {
            assert(first + places@[n as int] > u64::MAX);
            return Err(LeaderError::SlotTooLarge);
        }
        n = n + 1;
    }
    leader_slots(places, absolute_slot, slot_index)
}

/// The slots that a validator leads, by their places in the epoch.
pub fn leader_slots(places: &Vec<u64>, absolute_slot: u64, slot_index: u64) -> (led: Result<
    LeaderSlots,
    LeaderError,
>)
    requires
        slot_index <= absolute_slot,
        all_slots(places@, absolute_slot - slot_index),
    ensures
        led_from(led, places@, absolute_slot, slot_index),
{
    broadcast use vstd::set_lib::full_set_properties;

    let first: u64 = absolute_slot - slot_index;
    let mut slots: HashSet<u64> = HashSet::new();
    let mut coming: usize = 0;
    let mut next: u64 = u64::MAX;
    let mut n: usize = 0;
    assert(slots_at(places@.take(0), first as int) =~= Set::empty());
    assert(upcoming(slots@, absolute_slot) =~= Set::empty());
    while n < places.len()
        invariant
            n <= places@.len(),
            first == absolute_slot - slot_index,
            forall|i: int|
                0 <= i < places@.len() ==> first + #[trigger] places@[i] <= u64::MAX,
            slots@ == slots_at(places@.take(n as int), first as int),
            coming == upcoming(slots@, absolute_slot).len(),
            coming <= n,
            upcoming(slots@, absolute_slot).finite(),
            coming > 0 ==> upcoming(slots@, absolute_slot).contains(next),
            coming == 0 ==> next == u64::MAX,
            forall|slot: u64| #[trigger]
                upcoming(slots@, absolute_slot).contains(slot) ==> next <= slot,
        decreases places@.len() - n,
    {
        let ghost before = slots@;
        let slot: u64 = first + places[n];
        let is_new: bool = slots.insert(slot);
        proof {
            assert(slots@ =~= slots_at(places@.take(n + 1), first as int)) by {
                assert forall|s: u64| slots@.contains(s) <==> slots_at(
                    places@.take(n + 1),
                    first as int,
                ).contains(s) by {
                    if before.contains(s) {
                        let i = choose|i: int|
                            0 <= i < n && s == first + #[trigger] places@.take(n as int)[i];
                        assert(places@.take(n + 1)[i] == places@.take(n as int)[i]);
                    }
                    if s == slot {
                        assert(places@.take(n + 1)[n as int] == places@[n as int]);
                    }
                    if slots_at(places@.take(n + 1), first as int).contains(s) {
                        let i = choose|i: int|
                            0 <= i < n + 1 && s == first + #[trigger] places@.take(n + 1)[i];
                        if i < n {
                            assert(places@.take(n as int)[i] == places@.take(n + 1)[i]);
                        }
                    }
                }
            }
            if slot > absolute_slot {
                assert(upcoming(slots@, absolute_slot) =~= upcoming(before, absolute_slot).insert(
                    slot,
                ));
                if before.contains(slot) {
                    assert(upcoming(before, absolute_slot).contains(slot));
                }
            } else {
                assert(upcoming(slots@, absolute_slot) =~= upcoming(before, absolute_slot));
            }
        }
        if slot > absolute_slot {
            if is_new {
                coming = coming + 1;
            }
            if slot < next {
                next = slot;
            }
        }
        n = n + 1;
    }
    assert(places@.take(n as int) =~= places@);
    if coming == 0 {
        assert(upcoming(slots@, absolute_slot) =~= Set::empty());
        return Err(LeaderError::AllPast(slots.len()));
    }
    Ok(LeaderSlots { slots, upcoming: coming, next })
}

/// The numbers of two lists are those of the first and then those of the second.
pub proof fn lemma_numbers_in_order(first: Seq<Json>, second: Seq<Json>)
    ensures
        unsigned_in(first + second) == unsigned_in(first) + unsigned_in(second),
    decreases second.len(),
{
    if second.len() == 0 {
        assert(first + second =~= first);
        assert(unsigned_in(first) + unsigned_in(second) =~= unsigned_in(first));
    } else {
        let rest = second.drop_last();
        lemma_numbers_in_order(first, rest);
        assert((first + second).drop_last() =~= first + rest);
        assert((first + second).last() == second.last());
        assert(unsigned_in(first + second) =~= unsigned_in(first) + unsigned_in(second));
    }
}

/// Each place that a leader schedule lists for a validator is found, in its order; and nothing else
/// is, whatever else the schedule holds.
pub proof fn lemma_places_are_those_listed(
    fields: Vec<(String, Json)>,
    at: int,
    list: Vec<Json>,
    places: Seq<u64>,
)
    requires
        0 <= at < fields@.len(),
        fields@[at].1 == Json::List(list),
        forall|i: int|
            #![trigger fields@[i]]
            0 <= i < fields@.len() && i != at ==> fields@[i].0@ != fields@[at].0@,
        list@.len() == places.len(),
        forall|i: int|
            #![trigger list@[i]]
            0 <= i < list@.len() ==> list@[i] == Json::Unsigned(places[i]),
    ensures
        places_in(Json::Object(fields), fields@[at].0@) == places,
        indices_in(
            RpcResponse { result: Some(Json::Object(fields)), error: None },
            fields@[at].0@,
        ) == (if places.len() > 0 {
            Ok::<Seq<u64>, LeaderError>(places)
        } else {
            Err(LeaderError::NoSlots)
        }),
        forall|name: Seq<char>|
            (forall|i: int|
                #![trigger fields@[i]]
                0 <= i < fields@.len() ==> fields@[i].0@ != name) ==> #[trigger] places_in(
                Json::Object(fields),
                name,
            ).len() == 0,
{
    let name = fields@[at].0@;
    assert(is_field_at(fields@, name, at));
    let found = choose|found: int| is_field_at(fields@, name, found);
    assert(fields@[found].0@ == name);
    assert(found == at);
    lemma_all_numbers(list@, places);
}

proof fn lemma_all_numbers(list: Seq<Json>, places: Seq<u64>)
    requires
        list.len() == places.len(),
        forall|i: int|
            #![trigger list[i]]
            0 <= i < list.len() ==> list[i] == Json::Unsigned(places[i]),
    ensures
        unsigned_in(list) == places,
    decreases list.len(),
{
    if list.len() > 0 {
        let (fewer, rest) = (list.drop_last(), places.drop_last());
        assert forall|i: int| #![trigger fewer[i]] 0 <= i < fewer.len() implies fewer[i]
            == Json::Unsigned(rest[i]) by {
            assert(fewer[i] == list[i]);
        }
        lemma_all_numbers(fewer, rest);
        assert(list[list.len() - 1] == list.last());
        assert(rest.push(places.last()) =~= places);
    }
}

/// Which slots a validator leads. The current slot is led just where its own place is listed, and
/// any other just where the place is listed that is as far from that one as the slot is from the
/// current slot. The next is the first behind the current one; where there is none, that is told,
/// and how many slots are past.
pub proof fn lemma_led_slots_are_those_listed(
    led: Result<LeaderSlots, LeaderError>,
    places: Seq<u64>,
    absolute_slot: u64,
    slot_index: u64,
)
    requires
        slot_index <= absolute_slot,
        all_slots(places, absolute_slot - slot_index),
        led_from(led, places, absolute_slot, slot_index),
    ensures
        led is Ok <==> exists|i: int|
            0 <= i < places.len() && slot_index < #[trigger] places[i],
        led matches Ok(led) ==> {
            &&& forall|slot: u64| #[trigger]
                led.slots@.contains(slot) <==> exists|i: int|
                    0 <= i < places.len() && #[trigger] places[i] - slot_index == slot
                        - absolute_slot
            &&& absolute_slot < led.next
            &&& led.slots@.contains(led.next)
            &&& forall|slot: u64|
                absolute_slot < slot && #[trigger] led.slots@.contains(slot) ==> led.next <= slot
            &&& led.upcoming == led.slots@.filter(|slot: u64| absolute_slot < slot).len()
        },
        led matches Err(error) ==> (error matches LeaderError::AllPast(count) && count
            == places.to_set().len()),
{
    let first = absolute_slot - slot_index;
    let slots = slots_at(places, first);
    let coming = upcoming(slots, absolute_slot);
    match led {
        Ok(led) => {
            assert forall|slot: u64| #[trigger] led.slots@.contains(slot) <==> exists|i: int|
                0 <= i < places.len() && #[trigger] places[i] - slot_index == slot
                    - absolute_slot by {
                if led.slots@.contains(slot) {
                    let i = choose|i: int|
                        0 <= i < places.len() && slot == first + #[trigger] places[i];
                    assert(places[i] - slot_index == slot - absolute_slot);
                }
                if exists|i: int|
                    0 <= i < places.len() && #[trigger] places[i] - slot_index == slot
                        - absolute_slot {
                    let i = choose|i: int|
                        0 <= i < places.len() && #[trigger] places[i] - slot_index == slot
                            - absolute_slot;
                    assert(slot == first + places[i]);
                }
            }
            let i = choose|i: int|
                0 <= i < places.len() && led.next == first + #[trigger] places[i];
            assert(slot_index < places[i]);
            assert(led.slots@.filter(|slot: u64| absolute_slot < slot) =~= coming);
            assert forall|slot: u64|
                absolute_slot < slot && #[trigger] led.slots@.contains(slot) implies led.next
                <= slot by {
                assert(coming.contains(slot));
            }
        },
        Err(error) => {
            if exists|i: int| 0 <= i < places.len() && slot_index < #[trigger] places[i] {
                let i = choose|i: int| 0 <= i < places.len() && slot_index < #[trigger] places[i];
                let slot = (first + places[i]) as u64;
                assert(slot == first + places[i]);
                assert(coming.contains(slot));
            }
            lemma_as_many_slots_as_places(places, first);
        },
    }
}

/// Different places are those of different slots.
proof fn lemma_as_many_slots_as_places(places: Seq<u64>, first: int)
    requires
        0 <= first,
        all_slots(places, first),
    ensures
        slots_at(places, first).len() == places.to_set().len(),
    decreases places.len(),
{
    broadcast use vstd::set_lib::full_set_properties;

    if places.len() == 0 {
        assert(slots_at(places, first) =~= Set::empty());
        assert(places.to_set() =~= Set::empty());
    } else {
        let rest = places.drop_last();
        let last = places.last();
        assert(places[places.len() - 1] == last);
        assert forall|i: int| 0 <= i < rest.len() implies first + #[trigger] rest[i]
            <= u64::MAX by {
            assert(rest[i] == places[i]);
        }
        lemma_as_many_slots_as_places(rest, first);
        let slot = (first + last) as u64;
        assert(slot == first + last);
        assert(slots_at(places, first) =~= slots_at(rest, first).insert(slot)) by {
            assert forall|s: u64| slots_at(places, first).contains(s) <==> slots_at(
                rest,
                first,
            ).insert(slot).contains(s) by {
                if slots_at(places, first).contains(s) {
                    let i = choose|i: int|
                        0 <= i < places.len() && s == first + #[trigger] places[i];
                    if i < rest.len() {
                        assert(s == first + rest[i]);
                    }
                }
                if slots_at(rest, first).contains(s) {
                    let i = choose|i: int| 0 <= i < rest.len() && s == first + #[trigger] rest[i];
                    assert(s == first + places[i]);
                }
                if s == slot {
                    assert(s == first + places[places.len() - 1]);
                }
            }
        }
        assert(places.to_set() =~= rest.to_set().insert(last)) by {
            assert forall|p: u64| places.contains(p) <==> rest.contains(p) || p == last by {
                if places.contains(p) {
                    let i = choose|i: int| 0 <= i < places.len() && places[i] == p;
                    if i < rest.len() {
                        assert(rest[i] == p);
                    }
                }
                if rest.contains(p) {
                    let i = choose|i: int| 0 <= i < rest.len() && rest[i] == p;
                    assert(places[i] == p);
                }
            }
        }
        assert(slots_at(rest, first).contains(slot) <==> rest.to_set().contains(last)) by {
            if slots_at(rest, first).contains(slot) {
                let i = choose|i: int| 0 <= i < rest.len() && slot == first + #[trigger] rest[i];
                assert(rest[i] == last);
            }
            if rest.contains(last) {
                let i = choose|i: int| 0 <= i < rest.len() && rest[i] == last;
                assert(slot == first + rest[i]);
            }
        }
        vstd::set_lib::lemma_len_subset(slots_at(rest, first), Set::<u64>::full());
    }
}

/// The current slot and its place in the epoch are read out of a reply that has both, whatever else
/// it has and in whatever order; a reply with an error gives neither.
pub proof fn lemma_position_is_read(
    fields: Vec<(String, Json)>,
    error: Option<Json>,
    at: int,
    place: int,
    absolute_slot: u64,
    slot_index: u64,
)
    requires
        0 <= at < fields@.len(),
        0 <= place < fields@.len(),
        fields@[at].0@ == "absoluteSlot"@,
        fields@[at].1 == Json::Unsigned(absolute_slot),
        fields@[place].0@ == "slotIndex"@,
        fields@[place].1 == Json::Unsigned(slot_index),
        forall|i: int|
            #![trigger fields@[i]]
            0 <= i < fields@.len() ==> (fields@[i].0@ == "absoluteSlot"@ ==> i == at) && (
            fields@[i].0@ == "slotIndex"@ ==> i == place),
    ensures
        position_in(RpcResponse { result: Some(Json::Object(fields)), error }) == (
        if error is None {
            Ok::<(u64, u64), LeaderError>((absolute_slot, slot_index))
        } else {
            Err(LeaderError::Rpc)
        }),
{
    assert(is_field_at(fields@, "absoluteSlot"@, at));
    assert(is_field_at(fields@, "slotIndex"@, place));
    let a = choose|a: int| is_field_at(fields@, "absoluteSlot"@, a);
    let b = choose|b: int| is_field_at(fields@, "slotIndex"@, b);
    assert(fields@[a].0@ == "absoluteSlot"@ && fields@[b].0@ == "slotIndex"@);
}

} // verus!
