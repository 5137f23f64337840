//! Putting things in order by a number, without changing the order of those that have the same.

use vstd::prelude::*;

verus! {

/// Whether what is at `a` comes before what is at `b`: it has a lower key, or the same key and
/// comes before anyway.
pub open spec fn precedes(keys: Seq<u64>, a: usize, b: usize) -> bool {
    keys[a as int] < keys[b as int] || (keys[a as int] == keys[b as int] && a < b)
}

/// `order` is the places of the keys, from the lowest key up, each place once.
pub open spec fn is_order(keys: Seq<u64>, order: Seq<usize>) -> bool {
    &&& order.len() == keys.len()
    &&& forall|i: int| 0 <= i < order.len() ==> (#[trigger] order[i]) < keys.len()
    &&& forall|i: int, j: int|
        0 <= i < j < order.len() ==> precedes(keys, #[trigger] order[i], #[trigger] order[j])
}

/// There is one order only.
pub proof fn lemma_order_is_unique(keys: Seq<u64>, first: Seq<usize>, second: Seq<usize>)
    requires
        keys.len() <= usize::MAX,
        is_order(keys, first),
        is_order(keys, second),
    ensures
        first == second,
{
    assert forall|i: int| 0 <= i < first.len() implies first[i] == second[i] by {
        lemma_same_place(keys, first, second, i);
    }
    assert(first =~= second);
}

/// Every place stands somewhere in an order.
proof fn lemma_order_has_all(keys: Seq<u64>, order: Seq<usize>, place: usize)
    requires
        keys.len() <= usize::MAX,
        is_order(keys, order),
        place < keys.len(),
    ensures
        order.contains(place),
{
    let all = Set::<usize>::range(0, keys.len() as usize);
    let listed = order.to_set();
    broadcast use vstd::set_lib::range_set_properties;

    assert forall|i: int, j: int|
        0 <= i < order.len() && 0 <= j < order.len() && i != j implies order[i] != order[j] by {
        if i < j {
            assert(precedes(keys, order[i], order[j]));
        } else {
            assert(precedes(keys, order[j], order[i]));
        }
    }
    order.unique_seq_to_set();
    assert(listed.subset_of(all));
    vstd::set_lib::lemma_subset_equality(listed, all);
    assert(listed.contains(place));
}

proof fn lemma_same_place(keys: Seq<u64>, first: Seq<usize>, second: Seq<usize>, at: int)
    requires
        keys.len() <= usize::MAX,
        is_order(keys, first),
        is_order(keys, second),
        0 <= at < first.len(),
    ensures
        first[at] == second[at],
    decreases at,
{
    assert forall|i: int| 0 <= i < at implies first[i] == second[i] by {
        lemma_same_place(keys, first, second, i);
    }
    let a = first[at];
    let b = second[at];
    if a != b {
        lemma_order_has_all(keys, second, a);
        lemma_order_has_all(keys, first, b);
        let i = choose|i: int| 0 <= i < second.len() && second[i] == a;
        let j = choose|j: int| 0 <= j < first.len() && first[j] == b;
        assert(i > at) by {
            if i < at {
                assert(first[i] == a);
                assert(precedes(keys, first[i], first[at]));
            }
        }
        assert(j > at) by {
            if j < at {
                assert(second[j] == b);
                assert(precedes(keys, second[j], second[at]));
            }
        }
        assert(precedes(keys, second[at], second[i]));
        assert(precedes(keys, first[at], first[j]));
    }
}

/// The places of the keys, from the lowest key up.
pub fn order_by(keys: &Vec<u64>) -> (order: Vec<usize>)
    ensures
        is_order(keys@, order@),
{
    let mut order: Vec<usize> = Vec::new();
    let mut n: usize = 0;
    while n < keys.len()
        invariant
            n <= keys@.len(),
            order@.len() == n,
            forall|i: int| 0 <= i < n ==> (#[trigger] order@[i]) < n,
            forall|i: int, j: int|
                0 <= i < j < n ==> precedes(keys@, #[trigger] order@[i], #[trigger] order@[j]),
        decreases keys@.len() - n,
    {
        let mut at: usize = n;
        while at > 0 && keys[order[at - 1]] > keys[n]
            invariant
                at <= n,
                n < keys@.len(),
                order@.len() == n,
                forall|i: int| 0 <= i < n ==> (#[trigger] order@[i]) < n,
                forall|i: int| at <= i < n ==> keys@[(#[trigger] order@[i]) as int] > keys@[n as int],
            decreases at,
        {
            at = at - 1;
        }
        let ghost before = order@;
        order.insert(at, n);
        proof {
            assert forall|i: int, j: int| 0 <= i < j < n + 1 implies precedes(
                keys@,
                #[trigger] order@[i],
                #[trigger] order@[j],
            ) by {
                if i < at && j > at {
                    assert(precedes(keys@, before[i], before[j - 1]));
                } else if i < at && j < at {
                    assert(precedes(keys@, before[i], before[j]));
                } else if i > at {
                    assert(precedes(keys@, before[i - 1], before[j - 1]));
                } else if j == at {
                    if i < at - 1 {
                        assert(precedes(keys@, before[i], before[at - 1]));
                    }
                }
            }
        }
        n = n + 1;
    }
    order
}

/// The places of the keys, from the highest key down.
pub fn order_down_by(keys: &Vec<u64>) -> (order: Vec<usize>)
    ensures
        is_order(flipped(keys@), order@),
{
    let mut turned: Vec<u64> = Vec::new();
    let mut n: usize = 0;
    while n < keys.len()
        invariant
            n <= keys@.len(),
            turned@ == flipped(keys@).take(n as int),
        decreases keys@.len() - n,
    {
        turned.push(u64::MAX - keys[n]);
        n = n + 1;
    }
    assert(turned@ =~= flipped(keys@));
    order_by(&turned)
}

/// Keys that are in the opposite order.
pub open spec fn flipped(keys: Seq<u64>) -> Seq<u64> {
    keys.map_values(|key: u64| (u64::MAX - key) as u64)
}

/// An order names every place once, goes from the lowest key up, and leaves those of the same key as
/// they were.
pub proof fn lemma_order_goes_up(keys: Seq<u64>, order: Seq<usize>)
    requires
        keys.len() <= usize::MAX,
        is_order(keys, order),
    ensures
        order.len() == keys.len(),
        order.no_duplicates(),
        forall|place: usize| place < keys.len() ==> #[trigger] order.contains(place),
        forall|i: int, j: int|
            #![trigger order[i], order[j]]
            0 <= i < j < order.len() ==> {
                &&& keys[order[i] as int] <= keys[order[j] as int]
                &&& keys[order[i] as int] == keys[order[j] as int] ==> order[i] < order[j]
            },
{
    assert forall|i: int, j: int|
        #![trigger order[i], order[j]]
        0 <= i < j < order.len() implies {
        &&& keys[order[i] as int] <= keys[order[j] as int]
        &&& keys[order[i] as int] == keys[order[j] as int] ==> order[i] < order[j]
    } by {
        assert(precedes(keys, order[i], order[j]));
    }
    assert forall|i: int, j: int|
        0 <= i < order.len() && 0 <= j < order.len() && i != j implies order[i] != order[j] by {
        if i < j {
            assert(precedes(keys, order[i], order[j]));
        } else {
            assert(precedes(keys, order[j], order[i]));
        }
    }
    assert forall|place: usize| place < keys.len() implies #[trigger] order.contains(place) by {
        lemma_order_has_all(keys, order, place);
    }
}

} // verus!
