//! The wire form of a batch of ledger entries, as far as counting needs it.
//!
//! Counts of entries and of the transactions in an entry are eight-byte little-endian numbers.
//! Inside a transaction every vector is preceded by its length as a compact `u16` of one to three
//! bytes, which must be the shortest one that spells the number.

use vstd::prelude::*;

use crate::bytes;

verus! {

pub const HASH_SIZE: usize = 32;

pub const TRANSACTION_SIGNATURE_SIZE: usize = 64;

/// What a block, or a part of one, is found to hold.
#[derive(Debug, Clone, Copy, PartialEq, Eq, Structural)]
pub struct DecodedBlock {
    pub entries: u64,
    pub transactions: u64,
}

impl Default for DecodedBlock {
    fn default() -> (block: Self)
        ensures
            block == (DecodedBlock { entries: 0, transactions: 0 }),
    {
        DecodedBlock { entries: 0, transactions: 0 }
    }
}

/// The compact `u16` at `at`: its value and where it ends.
pub open spec fn short_u16(b: Seq<u8>, at: int) -> Option<(nat, int)> {
    if !(0 <= at < b.len()) {
        None
    } else if b[at] < 0x80 {
        Some((b[at] as nat, at + 1))
    } else if at + 1 >= b.len() {
        None
    } else if b[at + 1] < 0x80 {
        if b[at + 1] == 0 {
            None
        } else {
            Some(((b[at] - 0x80 + 0x80 * b[at + 1]) as nat, at + 2))
        }
    } else if at + 2 >= b.len() || b[at + 2] > 3 || b[at + 2] == 0 {
        None
    } else {
        Some(((b[at] - 0x80 + 0x80 * (b[at + 1] - 0x80) + 0x4000 * b[at + 2]) as nat, at + 3))
    }
}

/// Where `count` bytes that start at `at` end.
pub open spec fn skip_bytes(b: Seq<u8>, at: int, count: int) -> Option<int> {
    if at + count <= b.len() {
        Some(at + count)
    } else {
        None
    }
}

/// Where a vector of elements of `size` bytes each, preceded by its compact length, ends.
pub open spec fn skip_short_vec(b: Seq<u8>, at: int, size: int) -> Option<int> {
    match short_u16(b, at) {
        Some((count, start)) => skip_bytes(b, start, count * size),
        None => None,
    }
}

/// Where two byte vectors that follow `count` plain bytes end: an instruction is one such record,
/// with its program's index in front, and so is an address lookup, with its table's key in front.
pub open spec fn skip_record(b: Seq<u8>, at: int, count: int) -> Option<int> {
    match skip_bytes(b, at, count) {
        Some(first) => match skip_short_vec(b, first, 1) {
            Some(second) => skip_short_vec(b, second, 1),
            None => None,
        },
        None => None,
    }
}

/// Where `records` such records in a row end.
pub open spec fn skip_records(b: Seq<u8>, at: int, records: nat, count: int) -> Option<int>
    decreases records,
{
    if records == 0 {
        Some(at)
    } else {
        match skip_record(b, at, count) {
            Some(next) => skip_records(b, next, (records - 1) as nat, count),
            None => None,
        }
    }
}

/// Where a vector of such records, preceded by its compact length, ends.
pub open spec fn skip_record_vec(b: Seq<u8>, at: int, count: int) -> Option<int> {
    match short_u16(b, at) {
        Some((records, start)) => skip_records(b, start, records, count),
        None => None,
    }
}

/// The opening of a message: whether it is versioned, how many signatures it asks for, and where
/// the rest starts. A first byte with its top bit clear is itself the number of signatures; the
/// only version is zero.
pub open spec fn message_opening(b: Seq<u8>, at: int) -> Option<(bool, nat, int)> {
    if !(0 <= at < b.len()) {
        None
    } else if b[at] < 0x80 {
        Some((false, b[at] as nat, at + 1))
    } else if b[at] == 0x80 && at + 1 < b.len() {
        Some((true, b[at + 1] as nat, at + 2))
    } else {
        None
    }
}

/// Where the part of a message behind its opening ends: two header bytes, the account keys, a
/// block hash, the instructions and, in a versioned message, the address lookups.
pub open spec fn skip_message_body(b: Seq<u8>, at: int, versioned: bool) -> Option<int> {
    match skip_bytes(b, at, 2) {
        Some(keys) => match skip_short_vec(b, keys, 32) {
            Some(hash) => match skip_bytes(b, hash, HASH_SIZE as int) {
                Some(instructions) => match skip_record_vec(b, instructions, 1) {
                    Some(lookups) => if versioned {
                        skip_record_vec(b, lookups, 32)
                    } else {
                        Some(lookups)
                    },
                    None => None,
                },
                None => None,
            },
            None => None,
        },
        None => None,
    }
}

/// Where the transaction that starts at `at` ends, if there is a well-formed one: its signatures,
/// then a message that asks for just as many.
pub open spec fn skip_transaction(b: Seq<u8>, at: int) -> Option<int> {
    match short_u16(b, at) {
        Some((signatures, start)) => match skip_bytes(
            b,
            start,
            signatures * TRANSACTION_SIGNATURE_SIZE,
        ) {
            Some(message) => match message_opening(b, message) {
                Some((versioned, required, body)) => if signatures == required {
                    skip_message_body(b, body, versioned)
                } else {
                    None
                },
                None => None,
            },
            None => None,
        },
        None => None,
    }
}

/// Where `count` transactions in a row end.
pub open spec fn skip_transactions(b: Seq<u8>, at: int, count: nat) -> Option<int>
    decreases count,
{
    if count == 0 {
        Some(at)
    } else {
        match skip_transaction(b, at) {
            Some(next) => skip_transactions(b, next, (count - 1) as nat),
            None => None,
        }
    }
}

/// The entry that starts at `at`: how many transactions it holds and where it ends. An entry is a
/// count of hashes, a hash, the number of its transactions and the transactions, of which there
/// can be no more than half the bytes that are left.
pub open spec fn entry_at(b: Seq<u8>, at: int) -> Option<(nat, int)> {
    match bytes::le_at(b, at + 8 + HASH_SIZE, 8) {
        Some(count) => {
            let start = at + 8 + HASH_SIZE + 8;
            if count > (b.len() - start) / 2 {
                None
            } else {
                match skip_transactions(b, start, count) {
                    Some(end) => Some((count, end)),
                    None => None,
                }
            }
        },
        None => None,
    }
}

/// The transactions in `count` entries in a row from `at` on, and where those end.
pub open spec fn entries_at(b: Seq<u8>, at: int, count: nat) -> Option<(nat, int)>
    decreases count,
{
    if count == 0 {
        Some((0, at))
    } else {
        match entry_at(b, at) {
            Some((first, next)) => match entries_at(b, next, (count - 1) as nat) {
                Some((rest, end)) => Some((first + rest, end)),
                None => None,
            },
            None => None,
        }
    }
}

/// The numbers of entries and of transactions in a batch: the number of entries, then the entries
/// and nothing else.
pub open spec fn entry_batch(b: Seq<u8>) -> Option<(nat, nat)> {
    match bytes::le_at(b, 0, 8) {
        Some(count) => if count > (b.len() - 8) / 48 {
            None
        } else {
            match entries_at(b, 8, count) {
                Some((transactions, end)) => if end == b.len() {
                    Some((count, transactions))
                } else {
                    None
                },
                None => None,
            }
        },
        None => None,
    }
}

/// A position in a byte buffer.
pub(crate) struct WireCursor<'a> {
    pub(crate) bytes: &'a [u8],
    pub(crate) position: usize,
}

impl<'a> WireCursor<'a> {
    pub(crate) fn new(bytes: &'a [u8]) -> (cursor: Self)
        ensures
            cursor.bytes@ == bytes@,
            cursor.position == 0,
    {
        WireCursor { bytes, position: 0 }
    }

    pub(crate) fn remaining(&self) -> (left: usize)
        ensures
            left == if self.position <= self.bytes@.len() {
                self.bytes@.len() - self.position
            } else {
                0
            },
    {
        self.bytes.len().saturating_sub(self.position)
    }

    /// Moves on by `length` bytes.
    pub(crate) fn advance(&mut self, length: usize) -> (done: Option<()>)
        ensures
            final(self).bytes == old(self).bytes,
            final(self).position == if old(self).position + length <= usize::MAX {
                old(self).position + length
            } else {
                old(self).position as int
            },
            ({
                let end = skip_bytes(old(self).bytes@, old(self).position as int, length as int);
                &&& done is Some == end is Some
                &&& done is Some ==> end == Some(final(self).position as int)
            }),
    {
        match self.position.checked_add(length) {
            Some(position) => {
                self.position = position;
                if position <= self.bytes.len() {
                    Some(())
                } else {
                    None
                }
            },
            None => {
                proof {
                    assert(self.bytes@.len() == vstd::slice::spec_slice_len(self.bytes));
                }
                None
            },
        }
    }

    pub(crate) fn byte(&mut self) -> (byte: Option<u8>)
        ensures
            final(self).bytes == old(self).bytes,
            byte is Some == (old(self).position < old(self).bytes@.len()),
            byte matches Some(v) ==> v == old(self).bytes@[old(self).position as int]
                && final(self).position == old(self).position + 1,
    {
        if self.position >= self.bytes.len() {
            return None;
        }
        let byte: u8 = self.bytes[self.position];
        self.position = self.position + 1;
        Some(byte)
    }

    /// Reads an eight-byte length.
    pub(crate) fn bincode_len(&mut self) -> (length: Option<usize>)
        ensures
            final(self).bytes == old(self).bytes,
            ({
                let spelled = bytes::le_at(old(self).bytes@, old(self).position as int, 8);
                &&& length is Some == (spelled is Some && spelled->0 <= usize::MAX)
                &&& length matches Some(v) ==> spelled == Some(v as nat) && final(self).position
                    == old(self).position + 8
            }),
    {
        match bytes::read_u64(self.bytes, self.position) {
            Some(value) => {
                proof {
                    assert(self.bytes@.len() == vstd::slice::spec_slice_len(self.bytes));
                }
                self.position = self.position + 8;
                if value <= usize::MAX as u64 {
                    Some(value as usize)
                } else {
                    None
                }
            },
            None => None,
        }
    }

    /// Reads a compact length.
    pub(crate) fn short_u16_len(&mut self) -> (length: Option<usize>)
        ensures
            final(self).bytes == old(self).bytes,
            ({
                let spelled = short_u16(old(self).bytes@, old(self).position as int);
                &&& length is Some == spelled is Some
                &&& length matches Some(v) ==> v <= 0xffff && spelled == Some(
                    (v as nat, final(self).position as int),
                )
            }),
    {
        let first: usize = match self.byte() {
            Some(byte) => byte as usize,
            None => return None,
        };
        if first < 0x80 {
            return Some(first);
        }
        let second: usize = match self.byte() {
            Some(byte) => byte as usize,
            None => return None,
        };
        if second < 0x80 {
            // A top byte of zero would spell the number in more bytes than it needs.
            if second == 0 {
                return None;
            }
            return Some(first - 0x80 + 0x80 * second);
        }
        let third: usize = match self.byte() {
            Some(byte) => byte as usize,
            None => return None,
        };
        if third > 3 || third == 0 {
            return None;
        }
        Some(first - 0x80 + 0x80 * (second - 0x80) + 0x4000 * third)
    }

    /// Moves over a vector of elements of `size` bytes each.
    pub(crate) fn short_vec(&mut self, size: usize) -> (done: Option<()>)
        requires
            size <= 0x100,
        ensures
            final(self).bytes == old(self).bytes,
            ({
                let end = skip_short_vec(
                    old(self).bytes@,
                    old(self).position as int,
                    size as int,
                );
                &&& done is Some == end is Some
                &&& done is Some ==> end == Some(final(self).position as int)
            }),
    {
        match self.short_u16_len() {
            Some(count) => {
                assert(count * size <= 0xffff * 0x100) by (nonlinear_arith)
                    requires
                        count <= 0xffff,
                        size <= 0x100,
                ;
                self.advance(count * size)
            },
            None => None,
        }
    }

    /// Moves over a byte vector.
    pub(crate) fn short_vec_bytes(&mut self) -> (done: Option<()>)
        ensures
            final(self).bytes == old(self).bytes,
            ({
                let end = skip_short_vec(old(self).bytes@, old(self).position as int, 1);
                &&& done is Some == end is Some
                &&& done is Some ==> end == Some(final(self).position as int)
            }),
    {
        self.short_vec(1)
    }

    /// Moves over a vector of records, each of `count` bytes and two byte vectors.
    fn record_vec(&mut self, count: usize) -> (done: Option<()>)
        requires
            count <= 0x100,
        ensures
            final(self).bytes == old(self).bytes,
            ({
                let end = skip_record_vec(
                    old(self).bytes@,
                    old(self).position as int,
                    count as int,
                );
                &&& done is Some == end is Some
                &&& done is Some ==> end == Some(final(self).position as int)
            }),
    {
        let records: usize = match self.short_u16_len() {
            Some(records) => records,
            None => return None,
        };
        let ghost b = self.bytes@;
        let ghost end = skip_records(b, self.position as int, records as nat, count as int);
        let mut done: usize = 0;
        while done < records
            invariant
                done <= records,
                self.bytes@ == b,
                self.bytes == old(self).bytes,
                end == skip_records(
                    b,
                    self.position as int,
                    (records - done) as nat,
                    count as int,
                ),
                end == skip_record_vec(b, old(self).position as int, count as int),
                b == old(self).bytes@,
            decreases records - done,
        {
            if self.advance(count).is_none() {
                return None;
            }
            if self.short_vec_bytes().is_none() {
                return None;
            }
            if self.short_vec_bytes().is_none() {
                return None;
            }
            done = done + 1;
        }
        Some(())
    }
}

/// Moves over one transaction, or tells that there is none at the cursor.
pub(crate) fn decode_versioned_transaction(cursor: &mut WireCursor<'_>) -> (done: Option<()>)
    ensures
        final(cursor).bytes == old(cursor).bytes,
        ({
            let end = skip_transaction(old(cursor).bytes@, old(cursor).position as int);
            &&& done is Some == end is Some
            &&& done is Some ==> end == Some(final(cursor).position as int)
        }),
{
    let signature_count: usize = match cursor.short_u16_len() {
        Some(count) => count,
        None => return None,
    };
    if cursor.advance(signature_count * TRANSACTION_SIGNATURE_SIZE).is_none() {
        return None;
    }
    let discriminator: u8 = match cursor.byte() {
        Some(byte) => byte,
        None => return None,
    };
    let mut versioned: bool = false;
    let mut required_signatures: usize = discriminator as usize;
    if discriminator >= 0x80 {
        if discriminator != 0x80 {
            return None;
        }
        versioned = true;
        required_signatures =
        match cursor.byte() {
            Some(byte) => byte as usize,
            None => return None,
        };
    }
    if signature_count != required_signatures {
        return None;
    }
    // The rest of the message header: the opening held its first field.
    if cursor.advance(2).is_none() {
        return None;
    }
    if cursor.short_vec(32).is_none() {
        return None;
    }
    if cursor.advance(HASH_SIZE).is_none() {
        return None;
    }
    if cursor.record_vec(1).is_none() {
        return None;
    }
    if versioned {
        return cursor.record_vec(32);
    }
    Some(())
}

/// A transaction that is there ends behind its start and inside the buffer.
pub proof fn lemma_transaction_advances(b: Seq<u8>, at: int)
    requires
        skip_transaction(b, at) is Some,
    ensures
        at < skip_transaction(b, at)->0 <= b.len(),
{
    let (signatures, start) = short_u16(b, at)->0;
    let (versioned, _, body) = message_opening(b, start + signatures * TRANSACTION_SIGNATURE_SIZE)->0;
    let keys = skip_bytes(b, body, 2)->0;
    let hash = skip_short_vec(b, keys, 32)->0;
    let lookups = skip_record_vec(b, hash + HASH_SIZE, 1)->0;
    let (instructions, first) = short_u16(b, hash + HASH_SIZE)->0;
    lemma_records_advance(b, first, instructions, 1);
    if versioned {
        let (tables, first) = short_u16(b, lookups)->0;
        lemma_records_advance(b, first, tables, 32);
    }
}

proof fn lemma_records_advance(b: Seq<u8>, at: int, records: nat, count: int)
    requires
        0 <= count,
        at <= b.len(),
        skip_records(b, at, records, count) is Some,
    ensures
        at <= skip_records(b, at, records, count)->0 <= b.len(),
    decreases records,
{
    if records > 0 {
        let next = skip_record(b, at, count)->0;
        lemma_records_advance(b, next, (records - 1) as nat, count);
    }
}

/// As many transactions as `count` take up at least as many bytes.
pub proof fn lemma_transactions_advance(b: Seq<u8>, at: int, count: nat)
    requires
        at <= b.len(),
        skip_transactions(b, at, count) is Some,
    ensures
        at + count <= skip_transactions(b, at, count)->0 <= b.len(),
    decreases count,
{
    if count > 0 {
        lemma_transaction_advances(b, at);
        lemma_transactions_advance(b, skip_transaction(b, at)->0, (count - 1) as nat);
    }
}

/// Skips an entry and counts its transactions, or tells that there is none.
pub(crate) fn decode_entry(cursor: &mut WireCursor<'_>) -> (transactions: Option<usize>)
    requires
        old(cursor).position <= old(cursor).bytes@.len(),
    ensures
        final(cursor).bytes == old(cursor).bytes,
        ({
            let entry = entry_at(old(cursor).bytes@, old(cursor).position as int);
            match transactions {
                Some(count) => {
                    &&& entry == Some((count as nat, final(cursor).position as int))
                    &&& old(cursor).position + count <= final(cursor).position
                        <= final(cursor).bytes@.len()
                },
                None => entry is None,
            }
        }),
{
    let ghost b = cursor.bytes@;
    assert(b.len() == vstd::slice::spec_slice_len(cursor.bytes));
    if cursor.advance(8 + HASH_SIZE).is_none() {
        return None;
    }
    let count: usize = match cursor.bincode_len() {
        Some(count) => count,
        None => return None,
    };
    if count > cursor.remaining() / 2 {
        return None;
    }
    let ghost start = cursor.position as int;
    let ghost end = skip_transactions(b, start, count as nat);
    let mut moved: usize = 0;
    while moved < count
        invariant
            moved <= count,
            cursor.bytes == old(cursor).bytes,
            cursor.bytes@ == b,
            cursor.position <= b.len(),
            end == skip_transactions(b, cursor.position as int, (count - moved) as nat),
            end is None ==> entry_at(b, old(cursor).position as int) is None,
        decreases count - moved,
    {
        let ghost before = cursor.position as int;
        if decode_versioned_transaction(cursor).is_none() {
            return None;
        }
        proof {
            lemma_transaction_advances(b, before);
        }
        moved = moved + 1;
    }
    proof {
        lemma_transactions_advance(b, start, count as nat);
    }
    Some(count)
}

/// Counts the entries and the transactions of a batch, or tells that it is not one.
pub fn decode_entry_batch(bytes: &[u8]) -> (decoded: Option<DecodedBlock>)
    ensures
        match decoded {
            Some(block) => entry_batch(bytes@) == Some(
                (block.entries as nat, block.transactions as nat),
            ),
            None => entry_batch(bytes@) is None,
        },
{
    let mut cursor = WireCursor::new(bytes);
    let ghost b = bytes@;
    assert(b.len() == vstd::slice::spec_slice_len(bytes));
    let entry_count: usize = match cursor.bincode_len() {
        Some(count) => count,
        None => return None,
    };
    if entry_count > cursor.remaining() / 48 {
        return None;
    }
    let ghost total = entries_at(b, 8, entry_count as nat);
    let mut transactions: u64 = 0;
    let mut done: usize = 0;
    while done < entry_count
        invariant
            done <= entry_count,
            cursor.bytes@ == b,
            b == bytes@,
            b.len() <= usize::MAX,
            transactions <= cursor.position <= b.len(),
            ({
                let rest = entries_at(b, cursor.position as int, (entry_count - done) as nat);
                &&& total is Some == rest is Some
                &&& rest matches Some((more, end)) ==> total == Some(
                    ((transactions + more) as nat, end),
                )
            }),
            total is None ==> entry_batch(b) is None,
        decreases entry_count - done,
    {
        let more: usize = match decode_entry(&mut cursor) {
            Some(more) => more,
            None => return None,
        };
        transactions = transactions + more as u64;
        done = done + 1;
    }
    if cursor.remaining() != 0 {
        return None;
    }
    Some(DecodedBlock { entries: entry_count as u64, transactions })
}

} // verus!
