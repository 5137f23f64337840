//! Ledger entries and their wire form, written out. What is counted is just what was written.

use vstd::prelude::*;

use crate::bytes;
use crate::entries;

verus! {

/// Plain bytes and two byte vectors. An instruction has its program's index in front of the indexes
/// of its accounts and its data; an address lookup has its table's key in front of the indexes of
/// the accounts to write to and of those to read.
pub struct Record {
    pub plain: Seq<u8>,
    pub first: Seq<u8>,
    pub second: Seq<u8>,
}

/// A transaction.
pub struct Transaction {
    pub signatures: Seq<Seq<u8>>,
    pub versioned: bool,
    /// The message header behind the number of signatures.
    pub header: Seq<u8>,
    pub keys: Seq<Seq<u8>>,
    pub block_hash: Seq<u8>,
    pub instructions: Seq<Record>,
    /// The address lookups. Only a versioned transaction has any.
    pub lookups: Seq<Record>,
}

/// An entry.
pub struct Entry {
    pub num_hashes: u64,
    pub hash: Seq<u8>,
    pub transactions: Seq<Transaction>,
}

/// Whether every piece is of `size` bytes.
pub open spec fn sized(pieces: Seq<Seq<u8>>, size: nat) -> bool {
    forall|i: int| 0 <= i < pieces.len() ==> (#[trigger] pieces[i]).len() == size
}

/// Whether there are as many records as can be told, each of them of `size` plain bytes.
pub open spec fn records_wf(records: Seq<Record>, size: nat) -> bool {
    &&& records.len() <= 0xffff
    &&& forall|i: int|
        #![trigger records[i]]
        0 <= i < records.len() ==> records[i].plain.len() == size && records[i].first.len()
            <= 0xffff && records[i].second.len() <= 0xffff
}

impl Transaction {
    pub open spec fn wf(self) -> bool {
        &&& self.signatures.len() < if self.versioned {
            0x100int
        } else {
            0x80
        }
        &&& sized(self.signatures, 64)
        &&& self.header.len() == 2
        &&& self.keys.len() <= 0xffff
        &&& sized(self.keys, 32)
        &&& self.block_hash.len() == 32
        &&& records_wf(self.instructions, 1)
        &&& records_wf(self.lookups, 32)
        &&& !self.versioned ==> self.lookups.len() == 0
    }
}

/// Whether every transaction can be written.
pub open spec fn transactions_wf(transactions: Seq<Transaction>) -> bool {
    forall|i: int| 0 <= i < transactions.len() ==> (#[trigger] transactions[i]).wf()
}

impl Entry {
    pub open spec fn wf(self) -> bool {
        &&& self.hash.len() == 32
        &&& self.transactions.len() <= u64::MAX
        &&& transactions_wf(self.transactions)
    }
}

/// Whether every entry can be written.
pub open spec fn entries_wf(list: Seq<Entry>) -> bool {
    forall|i: int| 0 <= i < list.len() ==> (#[trigger] list[i]).wf()
}

/// A length as a compact `u16`: seven bits to a byte, the low ones first, and the top bit of a byte
/// tells that another follows.
pub open spec fn short_bytes(n: nat) -> Seq<u8> {
    if n < 0x80 {
        seq![n as u8]
    } else if n < 0x4000 {
        seq![(0x80 + n % 0x80) as u8, (n / 0x80) as u8]
    } else {
        seq![(0x80 + n % 0x80) as u8, (0x80 + n / 0x80 % 0x80) as u8, (n / 0x4000) as u8]
    }
}

/// Pieces, one behind the other.
pub open spec fn joined(pieces: Seq<Seq<u8>>) -> Seq<u8>
    decreases pieces.len(),
{
    if pieces.len() == 0 {
        Seq::empty()
    } else {
        pieces.first() + joined(pieces.drop_first())
    }
}

/// A byte vector behind its length.
pub open spec fn vec_bytes(v: Seq<u8>) -> Seq<u8> {
    short_bytes(v.len()) + v
}

pub open spec fn record_bytes(record: Record) -> Seq<u8> {
    record.plain + (vec_bytes(record.first) + vec_bytes(record.second))
}

pub open spec fn records_bytes(records: Seq<Record>) -> Seq<u8>
    decreases records.len(),
{
    if records.len() == 0 {
        Seq::empty()
    } else {
        record_bytes(records.first()) + records_bytes(records.drop_first())
    }
}

/// What a message starts with: the version, if it has one, and the number of signatures.
pub open spec fn opening_bytes(versioned: bool, signatures: nat) -> Seq<u8> {
    if versioned {
        seq![0x80u8, signatures as u8]
    } else {
        seq![signatures as u8]
    }
}

pub open spec fn lookups_bytes(transaction: Transaction) -> Seq<u8> {
    if transaction.versioned {
        short_bytes(transaction.lookups.len()) + records_bytes(transaction.lookups)
    } else {
        Seq::empty()
    }
}

pub open spec fn transaction_bytes(t: Transaction) -> Seq<u8> {
    short_bytes(t.signatures.len()) + (joined(t.signatures) + (opening_bytes(
        t.versioned,
        t.signatures.len(),
    ) + (t.header + (short_bytes(t.keys.len()) + (joined(t.keys) + (t.block_hash + (short_bytes(
        t.instructions.len(),
    ) + (records_bytes(t.instructions) + lookups_bytes(t)))))))))
}

pub open spec fn transactions_bytes(list: Seq<Transaction>) -> Seq<u8>
    decreases list.len(),
{
    if list.len() == 0 {
        Seq::empty()
    } else {
        transaction_bytes(list.first()) + transactions_bytes(list.drop_first())
    }
}

pub open spec fn entry_bytes(entry: Entry) -> Seq<u8> {
    bytes::le_bytes(entry.num_hashes as nat, 8) + (entry.hash + (bytes::le_bytes(
        entry.transactions.len(),
        8,
    ) + transactions_bytes(entry.transactions)))
}

pub open spec fn entries_bytes(list: Seq<Entry>) -> Seq<u8>
    decreases list.len(),
{
    if list.len() == 0 {
        Seq::empty()
    } else {
        entry_bytes(list.first()) + entries_bytes(list.drop_first())
    }
}

/// A batch of entries: their number, then the entries.
pub open spec fn batch_bytes(list: Seq<Entry>) -> Seq<u8> {
    bytes::le_bytes(list.len(), 8) + entries_bytes(list)
}

/// How many transactions entries have.
pub open spec fn transaction_count(list: Seq<Entry>) -> nat
    decreases list.len(),
{
    if list.len() == 0 {
        0
    } else {
        list.first().transactions.len() + transaction_count(list.drop_first())
    }
}

/// A compact length is read where it stands, and only there.
proof fn lemma_short(b: Seq<u8>, at: int, n: nat)
    requires
        n <= 0xffff,
    ensures
        bytes::stands(b, at, short_bytes(n)) <==> entries::short_u16(b, at) == Some(
            (n, (at + short_bytes(n).len()) as int),
        ),
{
    let part = short_bytes(n);
    if bytes::stands(b, at, part) {
        let there = b.subrange(at, at + part.len());
        assert(there[0] == part[0]);
        if n >= 0x80 {
            assert(there[1] == part[1]);
        }
        if n >= 0x4000 {
            assert(there[2] == part[2]);
        }
    }
    if entries::short_u16(b, at) == Some((n, (at + part.len()) as int)) {
        assert(b.subrange(at, at + part.len()) =~= part);
    }
}

/// Where a compact length is read, its shortest form stands.
proof fn lemma_short_read(b: Seq<u8>, at: int)
    ensures
        entries::short_u16(b, at) matches Some((n, end)) ==> n <= 0xffff && end == at + short_bytes(
            n,
        ).len() && bytes::stands(b, at, short_bytes(n)),
{
    if let Some((n, end)) = entries::short_u16(b, at) {
        assert(end == at + short_bytes(n).len());
        lemma_short(b, at, n);
    }
}

proof fn lemma_joined_len(pieces: Seq<Seq<u8>>, size: nat)
    requires
        sized(pieces, size),
    ensures
        joined(pieces).len() == pieces.len() * size,
    decreases pieces.len(),
{
    if pieces.len() > 0 {
        let rest = pieces.drop_first();
        lemma_joined_len(rest, size);
        assert(rest.len() * size + size == pieces.len() * size) by (nonlinear_arith)
            requires
                rest.len() + 1 == pieces.len(),
        ;
    } else {
        assert(pieces.len() * size == 0) by (nonlinear_arith)
            requires
                pieces.len() == 0,
        ;
    }
}

/// Bytes can be cut into pieces of one size.
proof fn cut(b: Seq<u8>, count: nat, size: nat) -> (pieces: Seq<Seq<u8>>)
    requires
        b.len() == count * size,
    ensures
        pieces.len() == count,
        sized(pieces, size),
        joined(pieces) == b,
    decreases count,
{
    if count == 0 {
        assert(count * size == 0) by (nonlinear_arith)
            requires
                count == 0,
        ;
        assert(b =~= Seq::empty());
        Seq::empty()
    } else {
        let left = (count - 1) as nat;
        assert(left * size + size == count * size) by (nonlinear_arith)
            requires
                left + 1 == count,
        ;
        assert(left * size >= 0) by (nonlinear_arith);
        let rest = cut(b.skip(size as int), left, size);
        let pieces = seq![b.take(size as int)] + rest;
        assert(pieces.drop_first() =~= rest);
        assert(joined(pieces) =~= b);
        pieces
    }
}

/// A vector is passed over where it stands.
proof fn lemma_vec(b: Seq<u8>, at: int, v: Seq<u8>)
    requires
        v.len() <= 0xffff,
        bytes::stands(b, at, vec_bytes(v)),
    ensures
        entries::skip_short_vec(b, at, 1) == Some((at + vec_bytes(v).len()) as int),
{
    bytes::lemma_stands_both(b, at, short_bytes(v.len()), v);
    lemma_short(b, at, v.len());
    assert(v.len() * 1 == v.len());
}

proof fn vec_read(b: Seq<u8>, at: int) -> (v: Seq<u8>)
    requires
        entries::skip_short_vec(b, at, 1) is Some,
    ensures
        v.len() <= 0xffff,
        bytes::stands(b, at, vec_bytes(v)),
        entries::skip_short_vec(b, at, 1) == Some((at + vec_bytes(v).len()) as int),
{
    let (n, start) = entries::short_u16(b, at)->0;
    lemma_short_read(b, at);
    assert(n * 1 == n);
    let v = b.subrange(start, start + n);
    bytes::lemma_stands_both(b, at, short_bytes(n), v);
    v
}

proof fn lemma_record(b: Seq<u8>, at: int, record: Record)
    requires
        record.first.len() <= 0xffff,
        record.second.len() <= 0xffff,
        bytes::stands(b, at, record_bytes(record)),
    ensures
        entries::skip_record(b, at, record.plain.len() as int) == Some(
            (at + record_bytes(record).len()) as int,
        ),
{
    let (first, second) = (vec_bytes(record.first), vec_bytes(record.second));
    bytes::lemma_stands_both(b, at, record.plain, first + second);
    bytes::lemma_stands_both(b, at + record.plain.len(), first, second);
    lemma_vec(b, at + record.plain.len(), record.first);
    lemma_vec(b, at + record.plain.len() + first.len(), record.second);
}

proof fn record_read(b: Seq<u8>, at: int, size: nat) -> (record: Record)
    requires
        0 <= at,
        entries::skip_record(b, at, size as int) is Some,
    ensures
        record.plain.len() == size,
        record.first.len() <= 0xffff,
        record.second.len() <= 0xffff,
        bytes::stands(b, at, record_bytes(record)),
        entries::skip_record(b, at, size as int) == Some((at + record_bytes(record).len()) as int),
{
    let plain = b.subrange(at, at + size);
    let first = vec_read(b, at + size);
    let second = vec_read(b, at + size + vec_bytes(first).len());
    let record = Record { plain, first, second };
    bytes::lemma_stands_both(b, at + size, vec_bytes(first), vec_bytes(second));
    bytes::lemma_stands_both(b, at, plain, vec_bytes(first) + vec_bytes(second));
    record
}

proof fn lemma_records(b: Seq<u8>, at: int, records: Seq<Record>, size: nat)
    requires
        records_wf(records, size),
        bytes::stands(b, at, records_bytes(records)),
    ensures
        entries::skip_records(b, at, records.len(), size as int) == Some(
            (at + records_bytes(records).len()) as int,
        ),
    decreases records.len(),
{
    if records.len() > 0 {
        let (first, rest) = (records.first(), records.drop_first());
        assert(first == records[0]);
        assert forall|i: int| #![trigger rest[i]] 0 <= i < rest.len() implies rest[i].plain.len()
            == size && rest[i].first.len() <= 0xffff && rest[i].second.len() <= 0xffff by {
            assert(rest[i] == records[i + 1]);
        }
        bytes::lemma_stands_both(b, at, record_bytes(first), records_bytes(rest));
        lemma_record(b, at, first);
        lemma_records(b, at + record_bytes(first).len(), rest, size);
    }
}

proof fn records_read(b: Seq<u8>, at: int, count: nat, size: nat) -> (records: Seq<Record>)
    requires
        0 <= at <= b.len(),
        count <= 0xffff,
        entries::skip_records(b, at, count, size as int) is Some,
    ensures
        records.len() == count,
        records_wf(records, size),
        bytes::stands(b, at, records_bytes(records)),
        entries::skip_records(b, at, count, size as int) == Some(
            (at + records_bytes(records).len()) as int,
        ),
    decreases count,
{
    if count == 0 {
        let none = Seq::<Record>::empty();
        assert(b.subrange(at, at) =~= records_bytes(none));
        none
    } else {
        let first = record_read(b, at, size);
        let next = at + record_bytes(first).len();
        let rest = records_read(b, next, (count - 1) as nat, size);
        let records = seq![first] + rest;
        assert(records.drop_first() =~= rest);
        bytes::lemma_stands_both(b, at, record_bytes(first), records_bytes(rest));
        records
    }
}

/// A transaction is passed over where it stands.
#[verifier::spinoff_prover]
proof fn lemma_transaction(b: Seq<u8>, at: int, t: Transaction)
    requires
        t.wf(),
        bytes::stands(b, at, transaction_bytes(t)),
    ensures
        entries::skip_transaction(b, at) == Some((at + transaction_bytes(t).len()) as int),
        transaction_bytes(t).len() >= 2,
{
    let p1 = short_bytes(t.signatures.len());
    let p2 = joined(t.signatures);
    let p3 = opening_bytes(t.versioned, t.signatures.len());
    let p4 = t.header;
    let p5 = short_bytes(t.keys.len());
    let p6 = joined(t.keys);
    let p7 = t.block_hash;
    let p8 = short_bytes(t.instructions.len());
    let p9 = records_bytes(t.instructions);
    let p10 = lookups_bytes(t);
    let r9 = p9 + p10;
    let r8 = p8 + r9;
    let r7 = p7 + r8;
    let r6 = p6 + r7;
    let r5 = p5 + r6;
    let r4 = p4 + r5;
    let r3 = p3 + r4;
    let r2 = p2 + r3;
    assert(transaction_bytes(t) == p1 + r2);
    let a1 = at;
    let a2 = a1 + p1.len();
    let a3 = a2 + p2.len();
    let a4 = a3 + p3.len();
    let a5 = a4 + p4.len();
    let a6 = a5 + p5.len();
    let a7 = a6 + p6.len();
    let a8 = a7 + p7.len();
    let a9 = a8 + p8.len();
    let a10 = a9 + p9.len();
    bytes::lemma_stands_both(b, a1, p1, r2);
    bytes::lemma_stands_both(b, a2, p2, r3);
    bytes::lemma_stands_both(b, a3, p3, r4);
    bytes::lemma_stands_both(b, a4, p4, r5);
    bytes::lemma_stands_both(b, a5, p5, r6);
    bytes::lemma_stands_both(b, a6, p6, r7);
    bytes::lemma_stands_both(b, a7, p7, r8);
    bytes::lemma_stands_both(b, a8, p8, r9);
    bytes::lemma_stands_both(b, a9, p9, p10);
    lemma_short(b, a1, t.signatures.len());
    lemma_joined_len(t.signatures, 64);
    let opening = b.subrange(a3, a3 + p3.len());
    assert(opening[0] == p3[0]);
    if t.versioned {
        assert(opening[1] == p3[1]);
    }
    assert(entries::message_opening(b, a3) == Some((t.versioned, t.signatures.len(), a4)));
    lemma_short(b, a5, t.keys.len());
    lemma_joined_len(t.keys, 32);
    lemma_short(b, a8, t.instructions.len());
    lemma_records(b, a9, t.instructions, 1);
    if t.versioned {
        let (q1, q2) = (short_bytes(t.lookups.len()), records_bytes(t.lookups));
        bytes::lemma_stands_both(b, a10, q1, q2);
        lemma_short(b, a10, t.lookups.len());
        lemma_records(b, a10 + q1.len(), t.lookups, 32);
    }
}

/// The transaction that is passed over.
#[verifier::spinoff_prover]
proof fn transaction_read(b: Seq<u8>, at: int) -> (t: Transaction)
    requires
        0 <= at,
        entries::skip_transaction(b, at) is Some,
    ensures
        t.wf(),
        bytes::stands(b, at, transaction_bytes(t)),
        entries::skip_transaction(b, at) == Some((at + transaction_bytes(t).len()) as int),
{
    let (count, a2) = entries::short_u16(b, at)->0;
    lemma_short_read(b, at);
    let a3 = a2 + count * 64;
    let signatures = cut(b.subrange(a2, a3), count, 64);
    let (versioned, required, a4) = entries::message_opening(b, a3)->0;
    let p3 = opening_bytes(versioned, count);
    assert(b.subrange(a3, a4) =~= p3);
    let a5 = a4 + 2;
    let header = b.subrange(a4, a5);
    let (key_count, a6) = entries::short_u16(b, a5)->0;
    lemma_short_read(b, a5);
    let a7 = a6 + key_count * 32;
    let keys = cut(b.subrange(a6, a7), key_count, 32);
    let a8 = a7 + 32;
    let block_hash = b.subrange(a7, a8);
    let (instruction_count, a9) = entries::short_u16(b, a8)->0;
    lemma_short_read(b, a8);
    let instructions = records_read(b, a9, instruction_count, 1);
    let a10 = a9 + records_bytes(instructions).len();
    let lookups: Seq<Record> = if versioned {
        let (lookup_count, a11) = entries::short_u16(b, a10)->0;
        lemma_short_read(b, a10);
        let lookups = records_read(b, a11, lookup_count, 32);
        bytes::lemma_stands_both(b, a10, short_bytes(lookup_count), records_bytes(lookups));
        lookups
    } else {
        Seq::empty()
    };
    let t = Transaction {
        signatures,
        versioned,
        header,
        keys,
        block_hash,
        instructions,
        lookups,
    };
    assert(t.wf());
    let p10 = lookups_bytes(t);
    if !versioned {
        assert(b.subrange(a10, a10) =~= p10);
    }
    assert(bytes::stands(b, a10, p10));
    let r9 = records_bytes(instructions) + p10;
    let r8 = short_bytes(instruction_count) + r9;
    let r7 = block_hash + r8;
    let r6 = joined(keys) + r7;
    let r5 = short_bytes(key_count) + r6;
    let r4 = header + r5;
    let r3 = p3 + r4;
    let r2 = joined(signatures) + r3;
    bytes::lemma_stands_both(b, a9, records_bytes(instructions), p10);
    bytes::lemma_stands_both(b, a8, short_bytes(instruction_count), r9);
    bytes::lemma_stands_both(b, a7, block_hash, r8);
    bytes::lemma_stands_both(b, a6, joined(keys), r7);
    bytes::lemma_stands_both(b, a5, short_bytes(key_count), r6);
    bytes::lemma_stands_both(b, a4, header, r5);
    bytes::lemma_stands_both(b, a3, p3, r4);
    bytes::lemma_stands_both(b, a2, joined(signatures), r3);
    bytes::lemma_stands_both(b, at, short_bytes(count), r2);
    assert(transaction_bytes(t) == short_bytes(count) + r2);
    lemma_transaction(b, at, t);
    t
}

proof fn lemma_transactions(b: Seq<u8>, at: int, list: Seq<Transaction>)
    requires
        transactions_wf(list),
        bytes::stands(b, at, transactions_bytes(list)),
    ensures
        entries::skip_transactions(b, at, list.len()) == Some(
            (at + transactions_bytes(list).len()) as int,
        ),
        transactions_bytes(list).len() >= 2 * list.len(),
    decreases list.len(),
{
    if list.len() > 0 {
        let (first, rest) = (list.first(), list.drop_first());
        assert(first == list[0]);
        assert forall|i: int| 0 <= i < rest.len() implies (#[trigger] rest[i]).wf() by {
            assert(rest[i] == list[i + 1]);
        }
        bytes::lemma_stands_both(b, at, transaction_bytes(first), transactions_bytes(rest));
        lemma_transaction(b, at, first);
        lemma_transactions(b, at + transaction_bytes(first).len(), rest);
    }
}

proof fn transactions_read(b: Seq<u8>, at: int, count: nat) -> (list: Seq<Transaction>)
    requires
        0 <= at <= b.len(),
        entries::skip_transactions(b, at, count) is Some,
    ensures
        list.len() == count,
        transactions_wf(list),
        bytes::stands(b, at, transactions_bytes(list)),
    decreases count,
{
    if count == 0 {
        let none = Seq::<Transaction>::empty();
        assert(b.subrange(at, at) =~= transactions_bytes(none));
        none
    } else {
        let first = transaction_read(b, at);
        let rest = transactions_read(b, at + transaction_bytes(first).len(), (count - 1) as nat);
        let list = seq![first] + rest;
        assert(list.drop_first() =~= rest);
        bytes::lemma_stands_both(b, at, transaction_bytes(first), transactions_bytes(rest));
        list
    }
}

proof fn lemma_entry(b: Seq<u8>, at: int, entry: Entry)
    requires
        entry.wf(),
        bytes::stands(b, at, entry_bytes(entry)),
    ensures
        entries::entry_at(b, at) == Some(
            (entry.transactions.len(), (at + entry_bytes(entry).len()) as int),
        ),
        entry_bytes(entry).len() >= 48,
{
    bytes::lemma_widths();
    let p1 = bytes::le_bytes(entry.num_hashes as nat, 8);
    let p2 = entry.hash;
    let p3 = bytes::le_bytes(entry.transactions.len(), 8);
    let p4 = transactions_bytes(entry.transactions);
    bytes::lemma_written_is_read(entry.num_hashes as nat, 8);
    bytes::lemma_written_is_read(entry.transactions.len(), 8);
    bytes::lemma_stands_both(b, at, p1, p2 + (p3 + p4));
    bytes::lemma_stands_both(b, at + 8, p2, p3 + p4);
    bytes::lemma_stands_both(b, at + 40, p3, p4);
    bytes::lemma_number_stands(b, at + 40, entry.transactions.len(), 8);
    lemma_transactions(b, at + 48, entry.transactions);
}

proof fn entry_read(b: Seq<u8>, at: int) -> (entry: Entry)
    requires
        0 <= at,
        entries::entry_at(b, at) is Some,
    ensures
        entry.wf(),
        bytes::stands(b, at, entry_bytes(entry)),
        entries::entry_at(b, at) == Some(
            (entry.transactions.len(), (at + entry_bytes(entry).len()) as int),
        ),
{
    bytes::lemma_widths();
    let count = bytes::le_at(b, at + 40, 8)->0;
    bytes::lemma_read_is_written(b.subrange(at, at + 8));
    bytes::lemma_read_is_written(b.subrange(at + 40, at + 48));
    let num_hashes = bytes::le_value(b.subrange(at, at + 8)) as u64;
    let hash = b.subrange(at + 8, at + 40);
    let transactions = transactions_read(b, at + 48, count);
    let entry = Entry { num_hashes, hash, transactions };
    let p1 = bytes::le_bytes(num_hashes as nat, 8);
    let p3 = bytes::le_bytes(count, 8);
    let p4 = transactions_bytes(transactions);
    bytes::lemma_stands_both(b, at + 40, p3, p4);
    bytes::lemma_stands_both(b, at + 8, hash, p3 + p4);
    bytes::lemma_stands_both(b, at, p1, hash + (p3 + p4));
    lemma_entry(b, at, entry);
    entry
}

proof fn lemma_entries(b: Seq<u8>, at: int, list: Seq<Entry>)
    requires
        entries_wf(list),
        bytes::stands(b, at, entries_bytes(list)),
    ensures
        entries::entries_at(b, at, list.len()) == Some(
            (transaction_count(list), (at + entries_bytes(list).len()) as int),
        ),
        entries_bytes(list).len() >= 48 * list.len(),
    decreases list.len(),
{
    if list.len() > 0 {
        let (first, rest) = (list.first(), list.drop_first());
        assert(first == list[0]);
        assert forall|i: int| 0 <= i < rest.len() implies (#[trigger] rest[i]).wf() by {
            assert(rest[i] == list[i + 1]);
        }
        bytes::lemma_stands_both(b, at, entry_bytes(first), entries_bytes(rest));
        lemma_entry(b, at, first);
        lemma_entries(b, at + entry_bytes(first).len(), rest);
    }
}

proof fn entries_read(b: Seq<u8>, at: int, count: nat) -> (list: Seq<Entry>)
    requires
        0 <= at <= b.len(),
        entries::entries_at(b, at, count) is Some,
    ensures
        list.len() == count,
        entries_wf(list),
        bytes::stands(b, at, entries_bytes(list)),
    decreases count,
{
    if count == 0 {
        let none = Seq::<Entry>::empty();
        assert(b.subrange(at, at) =~= entries_bytes(none));
        none
    } else {
        let first = entry_read(b, at);
        let rest = entries_read(b, at + entry_bytes(first).len(), (count - 1) as nat);
        let list = seq![first] + rest;
        assert(list.drop_first() =~= rest);
        bytes::lemma_stands_both(b, at, entry_bytes(first), entries_bytes(rest));
        list
    }
}

/// Whatever entries are written as a batch, they and their transactions are counted, each once.
pub proof fn lemma_written_batch_is_counted(list: Seq<Entry>)
    requires
        list.len() <= u64::MAX,
        entries_wf(list),
    ensures
        entries::entry_batch(batch_bytes(list)) == Some((list.len(), transaction_count(list))),
{
    bytes::lemma_widths();
    let b = batch_bytes(list);
    let p1 = bytes::le_bytes(list.len(), 8);
    let p2 = entries_bytes(list);
    bytes::lemma_written_is_read(list.len(), 8);
    assert(b.subrange(0, b.len() as int) =~= b);
    bytes::lemma_stands_both(b, 0, p1, p2);
    bytes::lemma_number_stands(b, 0, list.len(), 8);
    lemma_entries(b, 8, list);
}

/// Whatever is counted was written as a batch of so many entries with so many transactions: no byte
/// of it is left over or made up for.
pub proof fn lemma_counted_batch_was_written(b: Seq<u8>)
    requires
        entries::entry_batch(b) is Some,
    ensures
        exists|list: Seq<Entry>|
            entries_wf(list) && b == #[trigger] batch_bytes(list) && entries::entry_batch(b)
                == Some((list.len(), transaction_count(list))),
{
    bytes::lemma_widths();
    let count = bytes::le_at(b, 0, 8)->0;
    bytes::lemma_read_is_written(b.subrange(0, 8));
    let list = entries_read(b, 8, count);
    lemma_entries(b, 8, list);
    bytes::lemma_stands_both(b, 0, bytes::le_bytes(count, 8), entries_bytes(list));
    assert(b.subrange(0, b.len() as int) =~= b);
    assert(b == batch_bytes(list));
}

} // verus!
