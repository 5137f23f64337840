//! How data shreds spell the batches of a block: the bytes of a batch run over as many shreds as
//! they need, and the shred that ends a batch says so.

use vstd::prelude::*;

use crate::delivery;
use crate::entries::{self, DecodedBlock};
use crate::ledger::{self, Entry};
use crate::slot;
use crate::wire;

verus! {

/// The ledger bytes of data shreds.
pub open spec fn ledger_bytes(shreds: Seq<wire::WireShredView>) -> Seq<u8> {
    ledger::joined(shreds.map_values(|shred: wire::WireShredView| shred.data->0))
}

/// Whether `shreds` are those of one batch: all of them carry data, and the last of them, and no
/// other, says that it ends a batch.
pub open spec fn one_batch(shreds: Seq<wire::WireShredView>) -> bool {
    &&& shreds.len() > 0
    &&& forall|i: int|
        #![trigger shreds[i]]
        0 <= i < shreds.len() ==> shreds[i].data is Some && shreds[i].data_complete() == (i
            == shreds.len() - 1)
}

/// Whether `shreds` are those of one batch, and spell these entries. Where there are no bytes there
/// are no entries.
pub open spec fn spells(shreds: Seq<wire::WireShredView>, list: Seq<Entry>) -> bool {
    &&& one_batch(shreds)
    &&& ledger::entries_wf(list)
    &&& list.len() <= u64::MAX
    &&& ledger_bytes(shreds) == ledger::batch_bytes(list) || (ledger_bytes(shreds).len() == 0
        && list.len() == 0)
}

proof fn lemma_joined_push(pieces: Seq<Seq<u8>>, piece: Seq<u8>)
    ensures
        ledger::joined(pieces.push(piece)) == ledger::joined(pieces) + piece,
    decreases pieces.len(),
{
    let more = pieces.push(piece);
    if pieces.len() == 0 {
        reveal_with_fuel(ledger::joined, 2);
        assert(more.drop_first() =~= pieces);
        assert(ledger::joined(more) =~= piece);
        assert(ledger::joined(pieces) + piece =~= piece);
    } else {
        let rest = pieces.drop_first();
        assert(more.drop_first() =~= rest.push(piece));
        lemma_joined_push(rest, piece);
        assert(ledger::joined(more) =~= ledger::joined(pieces) + piece);
    }
}

proof fn lemma_ledger_bytes_next(shreds: Seq<wire::WireShredView>, count: int)
    requires
        0 <= count < shreds.len(),
    ensures
        ledger_bytes(shreds.take(count + 1)) == ledger_bytes(shreds.take(count))
            + shreds[count].data->0,
{
    let data = |shred: wire::WireShredView| shred.data->0;
    lemma_joined_push(shreds.take(count).map_values(data), shreds[count].data->0);
    assert(shreds.take(count + 1).map_values(data) =~= shreds.take(count).map_values(data).push(
        shreds[count].data->0,
    ));
}

/// What shreds amount to depends on no shred behind them.
proof fn lemma_prefix(a: Seq<wire::WireShredView>, b: Seq<wire::WireShredView>, count: int)
    requires
        count <= a.len(),
        count <= b.len(),
        forall|i: int| 0 <= i < count ==> a[i] == b[i],
    ensures
        delivery::taken_in_order(a, count) == delivery::taken_in_order(b, count),
    decreases count,
{
    if count > 0 {
        lemma_prefix(a, b, count - 1);
    }
}

/// Where no shred ends a batch, the bytes add up.
proof fn lemma_bytes_add_up(
    before: Seq<wire::WireShredView>,
    shreds: Seq<wire::WireShredView>,
    count: int,
    found: (int, int),
)
    requires
        0 <= count <= shreds.len(),
        delivery::taken_in_order(before, before.len() as int) == Some(
            (Seq::<u8>::empty(), found.0, found.1),
        ),
        forall|i: int|
            #![trigger shreds[i]]
            0 <= i < count ==> shreds[i].data is Some && !shreds[i].data_complete(),
    ensures
        delivery::taken_in_order(before + shreds, before.len() + count) == Some(
            (ledger_bytes(shreds.take(count)), found.0, found.1),
        ),
    decreases count,
{
    if count == 0 {
        lemma_prefix(before, before + shreds, before.len() as int);
        assert(shreds.take(0).map_values(|shred: wire::WireShredView| shred.data->0)
            =~= Seq::empty());
    } else {
        lemma_bytes_add_up(before, shreds, count - 1, found);
        lemma_ledger_bytes_next(shreds, count - 1);
        assert((before + shreds)[before.len() + count - 1] == shreds[count - 1]);
    }
}

/// What no shreds spell is a block of nothing.
pub proof fn lemma_nothing_spells_nothing()
    ensures
        delivery::spelled(Seq::empty()) == Some(DecodedBlock { entries: 0, transactions: 0 }),
{
}

/// One more batch adds its entries and its transactions to a block, whatever entries those are and
/// however their bytes are cut into shreds.
pub proof fn lemma_batch_is_added(
    before: Seq<wire::WireShredView>,
    shreds: Seq<wire::WireShredView>,
    list: Seq<Entry>,
)
    requires
        delivery::spelled(before) matches Some(found) && found.entries + list.len() <= u64::MAX
            && found.transactions + ledger::transaction_count(list) <= u64::MAX,
        spells(shreds, list),
    ensures
        delivery::spelled(before + shreds) == Some(
            DecodedBlock {
                entries: (delivery::spelled(before)->0.entries + list.len()) as u64,
                transactions: (delivery::spelled(before)->0.transactions
                    + ledger::transaction_count(list)) as u64,
            },
        ),
{
    let n = before.len() as int;
    let last = shreds.len() - 1;
    let (batch, e, t) = delivery::taken_in_order(before, n)->0;
    assert(batch =~= Seq::empty());
    lemma_counts_fit(before, n);
    lemma_bytes_add_up(before, shreds, last, (e, t));
    lemma_ledger_bytes_next(shreds, last);
    assert(shreds.take(last + 1) =~= shreds);
    assert((before + shreds)[n + last] == shreds[last]);
    lemma_last_of_batch(ledger_bytes(shreds.take(last)), e, t, shreds[last], list);
}

/// What the last shred of a batch makes of it.
proof fn lemma_last_of_batch(
    held: Seq<u8>,
    e: int,
    t: int,
    shred: wire::WireShredView,
    list: Seq<Entry>,
)
    requires
        shred.data is Some,
        shred.data_complete(),
        ledger::entries_wf(list),
        e + list.len() <= u64::MAX,
        t + ledger::transaction_count(list) <= u64::MAX,
        0 <= e,
        held + shred.data->0 == ledger::batch_bytes(list) || ((held + shred.data->0).len() == 0
            && list.len() == 0),
    ensures
        slot::taken((held, e, t), shred) == Some(
            (Seq::<u8>::empty(), e + list.len(), t + ledger::transaction_count(list)),
        ),
{
    let all = held + shred.data->0;
    if all.len() > 0 {
        ledger::lemma_written_batch_is_counted(list);
    } else {
        assert(all =~= Seq::empty());
        if all == ledger::batch_bytes(list) {
            crate::bytes::lemma_widths();
            crate::bytes::lemma_written_is_read(list.len(), 8);
        }
    }
}

/// The numbers of a block can be held.
proof fn lemma_counts_fit(shreds: Seq<wire::WireShredView>, count: int)
    ensures
        delivery::taken_in_order(shreds, count) matches Some((batch, e, t)) ==> 0 <= e <= u64::MAX
            && 0 <= t <= u64::MAX,
    decreases count,
{
    if count > 0 {
        lemma_counts_fit(shreds, count - 1);
    }
}

/// The shreds of the first `count` batches.
pub open spec fn shreds_of(groups: Seq<Seq<wire::WireShredView>>, count: int) -> Seq<
    wire::WireShredView,
>
    decreases count,
{
    if count <= 0 {
        Seq::empty()
    } else {
        shreds_of(groups, count - 1) + groups[count - 1]
    }
}

/// The entries and the transactions of the first `count` batches.
pub open spec fn counts_of(batches: Seq<Seq<Entry>>, count: int) -> (nat, nat)
    decreases count,
{
    if count <= 0 {
        (0, 0)
    } else {
        let (e, t) = counts_of(batches, count - 1);
        (e + batches[count - 1].len(), t + ledger::transaction_count(batches[count - 1]))
    }
}

/// Any batches of any entries, cut into shreds in any way, spell a block of all their entries and
/// all their transactions.
pub proof fn lemma_block_is_spelled(
    groups: Seq<Seq<wire::WireShredView>>,
    batches: Seq<Seq<Entry>>,
    count: int,
)
    requires
        0 <= count <= groups.len(),
        groups.len() == batches.len(),
        forall|i: int|
            #![trigger groups[i]]
            0 <= i < count ==> spells(groups[i], batches[i]),
        counts_of(batches, count).0 <= u64::MAX,
        counts_of(batches, count).1 <= u64::MAX,
    ensures
        delivery::spelled(shreds_of(groups, count)) == Some(
            DecodedBlock {
                entries: counts_of(batches, count).0 as u64,
                transactions: counts_of(batches, count).1 as u64,
            },
        ),
    decreases count,
{
    if count > 0 {
        lemma_block_is_spelled(groups, batches, count - 1);
        assert(spells(groups[count - 1], batches[count - 1]));
        lemma_batch_is_added(
            shreds_of(groups, count - 1),
            groups[count - 1],
            batches[count - 1],
        );
    }
}

/// Where the last batch ends, or the shreds start.
spec fn batch_start(shreds: Seq<wire::WireShredView>, count: int) -> int
    decreases count,
{
    if count <= 0 {
        0
    } else if shreds[count - 1].data_complete() {
        count
    } else {
        batch_start(shreds, count - 1)
    }
}

/// What is left of a batch is what its shreds carry.
proof fn lemma_left_over(shreds: Seq<wire::WireShredView>, count: int)
    requires
        0 <= count <= shreds.len(),
        delivery::taken_in_order(shreds, count) is Some,
    ensures
        ({
            let start = batch_start(shreds, count);
            let (batch, e, t) = delivery::taken_in_order(shreds, count)->0;
            &&& 0 <= start <= count
            &&& forall|i: int|
                #![trigger shreds[i]]
                0 <= i < count ==> shreds[i].data is Some && (start <= i
                    ==> !shreds[i].data_complete())
            &&& start > 0 ==> shreds[start - 1].data_complete()
            &&& batch == ledger_bytes(shreds.subrange(start, count))
            &&& delivery::taken_in_order(shreds, start) == Some((Seq::<u8>::empty(), e, t))
        }),
    decreases count,
{
    let data = |shred: wire::WireShredView| shred.data->0;
    if count == 0 {
        assert(shreds.subrange(0, 0).map_values(data) =~= Seq::empty());
    } else {
        lemma_left_over(shreds, count - 1);
        let start = batch_start(shreds, count);
        if start == count {
            assert(shreds.subrange(count, count).map_values(data) =~= Seq::empty());
            let (batch, e, t) = delivery::taken_in_order(shreds, count)->0;
            assert(batch =~= Seq::empty());
        } else {
            let more = shreds.subrange(start, count);
            lemma_ledger_bytes_next(more, count - 1 - start);
            assert(more.take(count - 1 - start) =~= shreds.subrange(start, count - 1));
            assert(more.take(count - start) =~= more);
        }
    }
}

/// Only whole batches spell a block. Where shreds spell one, and the last of them ends a batch,
/// that batch is one of entries, and the shreds before it spell a block of the others. Where the
/// last does not end a batch, no byte stands behind the last end of one.
pub proof fn lemma_only_batches_are_spelled(shreds: Seq<wire::WireShredView>)
    requires
        delivery::spelled(shreds) is Some,
        shreds.len() > 0,
        delivery::spelled(shreds)->0.entries < u64::MAX,
        delivery::spelled(shreds)->0.transactions < u64::MAX,
    ensures
        exists|start: int|
            {
                &&& 0 <= start < shreds.len()
                &&& #[trigger] delivery::spelled(shreds.take(start)) is Some
                &&& if shreds.last().data_complete() {
                    exists|list: Seq<Entry>|
                        {
                            let before = delivery::spelled(shreds.take(start))->0;
                            let after = delivery::spelled(shreds)->0;
                            &&& #[trigger] spells(shreds.skip(start), list)
                            &&& after.entries == before.entries + list.len()
                            &&& after.transactions == before.transactions
                                + ledger::transaction_count(list)
                        }
                } else {
                    &&& ledger_bytes(shreds.skip(start)).len() == 0
                    &&& delivery::spelled(shreds.take(start)) == delivery::spelled(shreds)
                }
            },
{
    let n = shreds.len() as int;
    let (batch, e, t) = delivery::taken_in_order(shreds, n)->0;
    lemma_counts_fit(shreds, n);
    lemma_left_over(shreds, n - 1);
    let (held, e0, t0) = delivery::taken_in_order(shreds, n - 1)->0;
    let start = batch_start(shreds, n - 1);
    let tail = shreds.skip(start);
    lemma_counts_fit(shreds, n - 1);
    lemma_prefix(shreds, shreds.take(start), start);
    assert(delivery::spelled(shreds.take(start)) == Some(
        DecodedBlock { entries: e0 as u64, transactions: t0 as u64 },
    ));
    lemma_ledger_bytes_next(tail, n - 1 - start);
    assert(tail.take(n - 1 - start) =~= shreds.subrange(start, n - 1));
    assert(tail.take(n - start) =~= tail);
    let all = ledger_bytes(tail);
    assert(shreds.last() == shreds[n - 1]);
    if shreds.last().data_complete() {
        assert(one_batch(tail)) by {
            assert forall|i: int|
                #![trigger tail[i]]
                0 <= i < tail.len() implies tail[i].data is Some && tail[i].data_complete() == (i
                == tail.len() - 1) by {
                assert(tail[i] == shreds[start + i]);
            }
        }
        if all.len() == 0 {
            let list = Seq::<Entry>::empty();
            assert(spells(tail, list));
        } else {
            assert(entries::entry_batch(all) is Some);
            ledger::lemma_counted_batch_was_written(all);
            let list = choose|list: Seq<Entry>|
                ledger::entries_wf(list) && all == #[trigger] ledger::batch_bytes(list)
                    && entries::entry_batch(all) == Some(
                    (list.len(), ledger::transaction_count(list)),
                );
            assert(list.len() <= u64::MAX) by {
                assert(slot::saturated(e0 + list.len(), u64::MAX as int) == e);
            }
            assert(spells(tail, list));
        }
    } else {
        assert(all == batch);
    }
}

} // verus!
