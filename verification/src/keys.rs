//! The keys of hash maps and sets.

use std::collections::{HashMap, HashSet};
use std::hash::Hash;

use vstd::prelude::*;

verus! {

broadcast use vstd::std_specs::hash::group_hash_axioms;

/// `list` names each key of a map once.
pub open spec fn lists_keys<K, V>(list: Seq<K>, map: Map<K, V>) -> bool {
    &&& list.no_duplicates()
    &&& forall|key: K| #[trigger] list.contains(key) <==> map.contains_key(key)
}

/// A map has no keys.
pub open spec fn holds_nothing<K, V>(map: Map<K, V>) -> bool {
    map == Map::<K, V>::empty()
}

/// `count` is how many keys a map has.
pub open spec fn counts_keys<K, V>(count: nat, map: Map<K, V>) -> bool {
    map.dom().finite() && count == map.dom().len()
}

/// The keys of a map, in no particular order.
pub(crate) fn list_keys<K: Copy + Eq + Hash, V>(map: &HashMap<K, V>) -> (list: Vec<K>)
    requires
        vstd::std_specs::hash::obeys_key_model::<K>(),
    ensures
        lists_keys(list@, map@),
{
    let mut list: Vec<K> = Vec::new();
    for key in walk: map.keys()
        invariant
            list@ =~= walk.seq().unref().take(walk.index()),
    {
        list.push(*key);
    }
    proof {
        let keys = vstd::std_specs::iter::IteratorSpec::remaining(
            &vstd::std_specs::hash::spec_keys_iter(map),
        );
        assert(list@ =~= keys.unref());
        assert(list@.to_set() == map@.dom());
        assert forall|i: int, j: int|
            0 <= i < list@.len() && 0 <= j < list@.len() && i != j implies list@[i] != list@[j] by {
            assert(*keys[i] == list@[i] && *keys[j] == list@[j]);
            assert(keys[i] != keys[j]);
        }
        assert forall|key: K| #[trigger] list@.contains(key) <==> map@.contains_key(key) by {
            assert(list@.to_set().contains(key) <==> map@.dom().contains(key));
        }
    }
    list
}

/// `list` names each member of a set once.
pub open spec fn lists_members<K>(list: Seq<K>, members: Set<K>) -> bool {
    &&& list.no_duplicates()
    &&& forall|key: K| #[trigger] list.contains(key) <==> members.contains(key)
}

/// The members of a set, in no particular order.
pub(crate) fn list_members<K: Copy + Eq + Hash>(members: &HashSet<K>) -> (list: Vec<K>)
    requires
        vstd::std_specs::hash::obeys_key_model::<K>(),
    ensures
        lists_members(list@, members@),
{
    let mut list: Vec<K> = Vec::new();
    for key in walk: members.iter()
        invariant
            list@ =~= walk.seq().unref().take(walk.index()),
    {
        list.push(*key);
    }
    proof {
        let keys = vstd::std_specs::iter::IteratorSpec::remaining(
            &vstd::std_specs::hash::spec_hash_keys_iter(members),
        );
        assert(list@ =~= keys.unref());
        assert forall|i: int, j: int|
            0 <= i < list@.len() && 0 <= j < list@.len() && i != j implies list@[i] != list@[j] by {
            assert(*keys[i] == list@[i] && *keys[j] == list@[j]);
            assert(keys[i] != keys[j]);
        }
        assert forall|key: K| #[trigger] list@.contains(key) <==> members@.contains(key) by {
            assert(list@.to_set().contains(key) <==> members@.contains(key));
        }
    }
    list
}

/// The numbers from `oldest` on.
pub open spec fn from(oldest: u64) -> Set<u64> {
    Set::new(|key: u64| key >= oldest)
}

/// Removes what has a key below `oldest`.
pub(crate) fn remove_keys_below<V>(map: &mut HashMap<u64, V>, oldest: u64)
    ensures
        final(map)@ == old(map)@.restrict(from(oldest)),
{
    let ghost before = map@;
    let list: Vec<u64> = list_keys(map);
    assert forall|key: u64| #[trigger] map@.contains_key(key) implies exists|k: int|
        0 <= k < list@.len() && list@[k] == key by {
        assert(list@.contains(key));
    }
    let mut n: usize = 0;
    while n < list.len()
        invariant
            n <= list@.len(),
            lists_keys(list@, before),
            forall|key: u64| #[trigger]
                map@.contains_key(key) <==> before.contains_key(key) && (key >= oldest || exists|
                    k: int,
                | n <= k < list@.len() && list@[k] == key),
            forall|key: u64| map@.contains_key(key) ==> #[trigger] map@[key] == before[key],
        decreases list@.len() - n,
    {
        let key: u64 = list[n];
        let ghost kept = map@;
        if key < oldest {
            map.remove(&key);
        }
        proof {
            assert forall|other: u64| #[trigger] map@.contains_key(other) implies kept.contains_key(
                other,
            ) && (other >= oldest || exists|k: int| n + 1 <= k < list@.len() && list@[k] == other) by {
                if other < oldest {
                    let k = choose|k: int| n <= k < list@.len() && list@[k] == other;
                    assert(k != n);
                }
            }
        }
        n = n + 1;
    }
    proof {
        assert forall|key: u64| #[trigger] map@.contains_key(key) <==> before.restrict(
            from(oldest),
        ).contains_key(key) by {
            if before.contains_key(key) {
                assert(list@.contains(key));
            }
        }
        assert(map@ =~= before.restrict(from(oldest)));
    }
}

/// Removes the members below `oldest`.
pub(crate) fn remove_members_below(members: &mut HashSet<u64>, oldest: u64)
    ensures
        final(members)@ == old(members)@.intersect(from(oldest)),
{
    let ghost before = members@;
    let list: Vec<u64> = list_members(members);
    assert forall|key: u64| #[trigger] members@.contains(key) implies exists|k: int|
        0 <= k < list@.len() && list@[k] == key by {
        assert(list@.contains(key));
    }
    let mut n: usize = 0;
    while n < list.len()
        invariant
            n <= list@.len(),
            lists_members(list@, before),
            forall|key: u64| #[trigger]
                members@.contains(key) <==> before.contains(key) && (key >= oldest || exists|k: int|
                    n <= k < list@.len() && list@[k] == key),
        decreases list@.len() - n,
    {
        let key: u64 = list[n];
        let ghost kept = members@;
        if key < oldest {
            members.remove(&key);
        }
        proof {
            assert forall|other: u64| #[trigger] members@.contains(other) implies kept.contains(
                other,
            ) && (other >= oldest || exists|k: int| n + 1 <= k < list@.len() && list@[k] == other) by {
                if other < oldest {
                    let k = choose|k: int| n <= k < list@.len() && list@[k] == other;
                    assert(k != n);
                }
            }
        }
        n = n + 1;
    }
    assert(members@ =~= before.intersect(from(oldest)));
}

} // verus!
