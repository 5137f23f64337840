//! Shreds as they are sent, written out. What is read of a shred is just what was written.

use vstd::prelude::*;

use crate::bytes;
use crate::registry::{self, ShredEvent, SourceId};
use crate::shred::{self, ShredKey, ShredType};
use crate::wire::{self, WireKind, WireShredView};

verus! {

/// What all shreds have in common, behind the signature.
pub struct Header {
    pub variant: u8,
    pub slot: u64,
    pub index: u32,
    pub version: u16,
    pub fec_set_index: u32,
}

impl Header {
    pub open spec fn bytes(self) -> Seq<u8> {
        seq![self.variant] + (bytes::le_bytes(self.slot as nat, 8) + (bytes::le_bytes(
            self.index as nat,
            4,
        ) + (bytes::le_bytes(self.version as nat, 2) + bytes::le_bytes(
            self.fec_set_index as nat,
            4,
        ))))
    }
}

proof fn lemma_byte_stands(b: Seq<u8>, at: int, byte: u8)
    ensures
        bytes::stands(b, at, seq![byte]) <==> 0 <= at < b.len() && b[at] == byte,
{
    if bytes::stands(b, at, seq![byte]) {
        assert(b.subrange(at, at + 1)[0] == byte);
    }
    if 0 <= at < b.len() && b[at] == byte {
        assert(b.subrange(at, at + 1) =~= seq![byte]);
    }
}

/// A header stands where its fields do.
proof fn lemma_header(b: Seq<u8>, at: int, h: Header)
    ensures
        h.bytes().len() == 19,
        bytes::stands(b, at, h.bytes()) <==> {
            &&& 0 <= at
            &&& at + 19 <= b.len()
            &&& b[at] == h.variant
            &&& bytes::le_at(b, at + 1, 8) == Some(h.slot as nat)
            &&& bytes::le_at(b, at + 9, 4) == Some(h.index as nat)
            &&& bytes::le_at(b, at + 13, 2) == Some(h.version as nat)
            &&& bytes::le_at(b, at + 15, 4) == Some(h.fec_set_index as nat)
        },
{
    bytes::lemma_widths();
    let p1 = seq![h.variant];
    let p2 = bytes::le_bytes(h.slot as nat, 8);
    let p3 = bytes::le_bytes(h.index as nat, 4);
    let p4 = bytes::le_bytes(h.version as nat, 2);
    let p5 = bytes::le_bytes(h.fec_set_index as nat, 4);
    bytes::lemma_written_is_read(h.slot as nat, 8);
    bytes::lemma_written_is_read(h.index as nat, 4);
    bytes::lemma_written_is_read(h.version as nat, 2);
    bytes::lemma_written_is_read(h.fec_set_index as nat, 4);
    bytes::lemma_stands_both(b, at, p1, p2 + (p3 + (p4 + p5)));
    bytes::lemma_stands_both(b, at + 1, p2, p3 + (p4 + p5));
    bytes::lemma_stands_both(b, at + 9, p3, p4 + p5);
    bytes::lemma_stands_both(b, at + 13, p4, p5);
    lemma_byte_stands(b, at, h.variant);
    bytes::lemma_number_stands(b, at + 1, h.slot as nat, 8);
    bytes::lemma_number_stands(b, at + 9, h.index as nat, 4);
    bytes::lemma_number_stands(b, at + 13, h.version as nat, 2);
    bytes::lemma_number_stands(b, at + 15, h.fec_set_index as nat, 4);
}

/// The header that stands somewhere.
proof fn header_read(b: Seq<u8>, at: int) -> (h: Header)
    requires
        0 <= at,
        at + 19 <= b.len(),
    ensures
        bytes::stands(b, at, h.bytes()),
        h.variant == b[at],
        h.slot == bytes::le_at(b, at + 1, 8)->0,
        h.index == bytes::le_at(b, at + 9, 4)->0,
        h.fec_set_index == bytes::le_at(b, at + 15, 4)->0,
{
    bytes::lemma_widths();
    bytes::lemma_read_is_written(b.subrange(at + 1, at + 9));
    bytes::lemma_read_is_written(b.subrange(at + 9, at + 13));
    bytes::lemma_read_is_written(b.subrange(at + 13, at + 15));
    bytes::lemma_read_is_written(b.subrange(at + 15, at + 19));
    let h = Header {
        variant: b[at],
        slot: bytes::le_at(b, at + 1, 8)->0 as u64,
        index: bytes::le_at(b, at + 9, 4)->0 as u32,
        version: bytes::le_at(b, at + 13, 2)->0 as u16,
        fec_set_index: bytes::le_at(b, at + 15, 4)->0 as u32,
    };
    lemma_header(b, at, h);
    h
}

/// The key of a shred is that of the slot, the index and the type in its header, whatever else the
/// datagram holds; but no shred is of slot zero.
pub proof fn lemma_key_is_in_header(signature: Seq<u8>, h: Header, rest: Seq<u8>)
    requires
        signature.len() == 64,
    ensures
        shred::shred_key(signature + (h.bytes() + rest)) == (if h.slot == 0 {
            None
        } else {
            Some(
                ShredKey {
                    slot: h.slot,
                    index: h.index,
                    shred_type: if h.variant & 0x80 != 0 {
                        ShredType::Data
                    } else {
                        ShredType::Code
                    },
                },
            )
        }),
{
    let b = signature + (h.bytes() + rest);
    let variant = h.variant;
    assert(variant & 0x80 != 0 <==> variant >= 0x80) by (bit_vector);
    assert(b.subrange(0, b.len() as int) =~= b);
    bytes::lemma_stands_both(b, 0, signature, h.bytes() + rest);
    bytes::lemma_stands_both(b, 64, h.bytes(), rest);
    lemma_header(b, 64, h);
}

/// A datagram has a key only where a signature and a header of another slot than zero stand in it.
pub proof fn lemma_key_has_header(b: Seq<u8>)
    ensures
        shred::shred_key(b) is Some <==> exists|signature: Seq<u8>, h: Header, rest: Seq<u8>|
            signature.len() == 64 && h.slot != 0 && b == #[trigger] (signature + (h.bytes() + rest)),
{
    if b.len() >= 83 {
        let h = header_read(b, 64);
        let (signature, rest) = (b.take(64), b.skip(83));
        lemma_header(b, 64, h);
        assert(b.subrange(64, 83) == h.bytes());
        assert(b =~= signature + (b.subrange(64, 83) + rest));
        assert(b == signature + (h.bytes() + rest));
        assert(h.slot != 0 <==> shred::shred_key(b) is Some);
    }
    if exists|signature: Seq<u8>, h: Header, rest: Seq<u8>|
        signature.len() == 64 && h.slot != 0 && b == #[trigger] (signature + (h.bytes() + rest)) {
        let (signature, h, rest) = choose|signature: Seq<u8>, h: Header, rest: Seq<u8>|
            signature.len() == 64 && h.slot != 0 && b == #[trigger] (signature + (h.bytes() + rest));
        lemma_key_is_in_header(signature, h, rest);
    }
}

/// A Merkle data shred.
pub struct DataShred {
    pub signature: Seq<u8>,
    pub proof_size: u8,
    pub resigned: bool,
    pub slot: u64,
    pub index: u32,
    pub version: u16,
    pub fec_set_index: u32,
    pub parent_offset: u16,
    pub flags: u8,
    /// The ledger bytes.
    pub data: Seq<u8>,
    /// What fills the rest of the part that erasure coding covers.
    pub padding: Seq<u8>,
    /// The Merkle root and proof, and the second signature of a resigned shred.
    pub trailer: Seq<u8>,
}

/// How long a trailer is.
pub open spec fn trailer_len(proof_size: u8, resigned: bool) -> int {
    32 + 20 * proof_size + if resigned {
        64int
    } else {
        0
    }
}

impl DataShred {
    pub open spec fn header(self) -> Header {
        Header {
            variant: ((if self.resigned {
                0xb0int
            } else {
                0x90
            }) + self.proof_size) as u8,
            slot: self.slot,
            index: self.index,
            version: self.version,
            fec_set_index: self.fec_set_index,
        }
    }

    /// The part that erasure coding covers.
    pub open spec fn coded(self) -> Seq<u8> {
        self.header().bytes() + (bytes::le_bytes(self.parent_offset as nat, 2) + (seq![self.flags]
            + (bytes::le_bytes(88 + self.data.len(), 2) + (self.data + self.padding))))
    }

    pub open spec fn bytes(self) -> Seq<u8> {
        self.signature + (self.coded() + self.trailer)
    }

    /// The fields are as long as they must be.
    pub open spec fn sized(self) -> bool {
        &&& self.signature.len() == 64
        &&& self.proof_size < 16
        &&& 88 + self.data.len() <= 0xffff
    }

    /// The shred has its place in a slot and fills a datagram.
    pub open spec fn wf(self) -> bool {
        &&& self.sized()
        &&& self.fec_set_index <= self.index < 32_768
        &&& self.trailer.len() == trailer_len(self.proof_size, self.resigned)
        &&& self.bytes().len() == 1203
    }

    /// What the shred says. It ends a batch where the flag `0x40` is set, and the slot where the
    /// flag `0x80` is set as well; the six other bits of the flags are the tick that it was made
    /// in.
    pub open spec fn view(self) -> WireShredView {
        WireShredView {
            slot: self.slot,
            index: self.index,
            fec_set_index: self.fec_set_index,
            proof_size: self.proof_size,
            resigned: self.resigned,
            signature: self.signature,
            kind: WireKind::Data {
                data_complete: self.flags & 0x40 != 0,
                last_in_slot: self.flags & 0x40 != 0 && self.flags & 0x80 != 0,
            },
            shard: self.coded(),
            data: Some(self.data),
        }
    }
}

/// The flags of data shreds, bit by bit.
proof fn lemma_flags(flags: u8)
    ensures
        wire::data_kind(flags) == (WireKind::Data {
            data_complete: flags & 0x40 != 0,
            last_in_slot: flags & 0x40 != 0 && flags & 0x80 != 0,
        }),
{
    assert((flags / 64) % 2 == 1 <==> flags & 0x40 != 0) by (bit_vector);
    assert(flags / 64 == 3 <==> (flags & 0x40 != 0 && flags & 0x80 != 0)) by (bit_vector);
}

/// The coded part of a data shred stands where its fields do.
proof fn lemma_coded(b: Seq<u8>, at: int, d: DataShred)
    requires
        d.sized(),
    ensures
        d.coded().len() == 24 + d.data.len() + d.padding.len(),
        bytes::stands(b, at, d.coded()) <==> {
            &&& bytes::stands(b, at, d.header().bytes())
            &&& at + 24 <= b.len()
            &&& bytes::le_at(b, at + 19, 2) == Some(d.parent_offset as nat)
            &&& b[at + 21] == d.flags
            &&& bytes::le_at(b, at + 22, 2) == Some(88 + d.data.len())
            &&& bytes::stands(b, at + 24, d.data)
            &&& bytes::stands(b, at + 24 + d.data.len(), d.padding)
        },
{
    bytes::lemma_widths();
    lemma_header(b, at, d.header());
    let p1 = d.header().bytes();
    let p2 = bytes::le_bytes(d.parent_offset as nat, 2);
    let p3 = seq![d.flags];
    let p4 = bytes::le_bytes(88 + d.data.len(), 2);
    bytes::lemma_written_is_read(d.parent_offset as nat, 2);
    bytes::lemma_written_is_read(88 + d.data.len(), 2);
    let r4 = d.data + d.padding;
    bytes::lemma_stands_both(b, at, p1, p2 + (p3 + (p4 + r4)));
    bytes::lemma_stands_both(b, at + 19, p2, p3 + (p4 + r4));
    bytes::lemma_stands_both(b, at + 21, p3, p4 + r4);
    bytes::lemma_stands_both(b, at + 22, p4, r4);
    bytes::lemma_stands_both(b, at + 24, d.data, d.padding);
    lemma_byte_stands(b, at + 21, d.flags);
    bytes::lemma_number_stands(b, at + 19, d.parent_offset as nat, 2);
    bytes::lemma_number_stands(b, at + 22, 88 + d.data.len(), 2);
}

proof fn lemma_variants(proof_size: u8)
    requires
        proof_size < 16,
    ensures
        wire::merkle_variant((0x90 + proof_size) as u8) == Some((true, proof_size, false)),
        wire::merkle_variant((0xb0 + proof_size) as u8) == Some((true, proof_size, true)),
        wire::merkle_variant((0x60 + proof_size) as u8) == Some((false, proof_size, false)),
        wire::merkle_variant((0x70 + proof_size) as u8) == Some((false, proof_size, true)),
        0x90u8 | proof_size == 0x90 + proof_size,
        0xb0u8 | proof_size == 0xb0 + proof_size,
{
    assert(proof_size < 16 ==> 0x90u8 | proof_size == 0x90u8 + proof_size) by (bit_vector);
    assert(proof_size < 16 ==> 0xb0u8 | proof_size == 0xb0u8 + proof_size) by (bit_vector);
}

/// Every data shred is read as it was written, whatever follows it in the datagram, and whatever
/// the bits of its flags are that say nothing of its end.
pub proof fn lemma_written_data_is_read(d: DataShred, rest: Seq<u8>)
    requires
        d.wf(),
    ensures
        wire::wire_shred(
            d.bytes() + rest,
            ShredKey { slot: d.slot, index: d.index, shred_type: ShredType::Data },
        ) == Some(d.view()),
{
    let b = d.bytes() + rest;
    assert(b.subrange(0, b.len() as int) =~= b);
    bytes::lemma_stands_both(b, 0, d.bytes(), rest);
    bytes::lemma_stands_both(b, 0, d.signature, d.coded() + d.trailer);
    bytes::lemma_stands_both(b, 64, d.coded(), d.trailer);
    lemma_coded(b, 64, d);
    lemma_header(b, 64, d.header());
    lemma_variants(d.proof_size);
    lemma_flags(d.flags);
    let end = (64 + d.coded().len()) as int;
    assert(end == 1203 - trailer_len(d.proof_size, d.resigned));
    assert(b.subrange(64, end) == d.coded());
    assert(b.subrange(88, (88 + d.data.len()) as int) == d.data);
}

/// What is read as a data shred was written as one, of the slot and the index that the key says.
pub proof fn lemma_read_data_was_written(b: Seq<u8>, key: ShredKey)
    requires
        wire::wire_shred(b, key) matches Some(shred) && shred.is_data(),
    ensures
        exists|d: DataShred|
            d.wf() && #[trigger] bytes::stands(b, 0, d.bytes()) && wire::wire_shred(b, key) == Some(
                d.view(),
            ) && key == (ShredKey { slot: d.slot, index: d.index, shred_type: ShredType::Data }),
{
    bytes::lemma_widths();
    let shred = wire::wire_shred(b, key)->0;
    let (is_data, proof_size, resigned) = wire::merkle_variant(b[64])->0;
    let end = 1203 - trailer_len(proof_size, resigned);
    let h = header_read(b, 64);
    bytes::lemma_read_is_written(b.subrange(83, 85));
    bytes::lemma_read_is_written(b.subrange(86, 88));
    let size = bytes::le_at(b, 86, 2)->0 as int;
    let d = DataShred {
        signature: b.subrange(0, 64),
        proof_size,
        resigned,
        slot: h.slot,
        index: h.index,
        version: h.version,
        fec_set_index: h.fec_set_index,
        parent_offset: bytes::le_at(b, 83, 2)->0 as u16,
        flags: b[85],
        data: b.subrange(88, size),
        padding: b.subrange(size, end),
        trailer: b.subrange(end, 1203),
    };
    lemma_variants(proof_size);
    assert(d.header() == h);
    lemma_coded(b, 64, d);
    bytes::lemma_stands_both(b, 64, d.coded(), d.trailer);
    bytes::lemma_stands_both(b, 0, d.signature, d.coded() + d.trailer);
    lemma_flags(d.flags);
    assert(d.wf());
    assert(shred == d.view());
}

/// A data shred is recovered from its coded part, of whatever length that is.
pub proof fn lemma_written_shard_is_read(d: DataShred)
    requires
        d.sized(),
    ensures
        wire::recovered_shred(
            d.coded(),
            d.slot,
            d.index,
            d.fec_set_index,
            d.proof_size,
            d.resigned,
            d.signature,
        ) == Some(d.view()),
{
    let b = d.coded();
    assert(b.subrange(0, b.len() as int) =~= b);
    lemma_coded(b, 0, d);
    lemma_header(b, 0, d.header());
    lemma_variants(d.proof_size);
    lemma_flags(d.flags);
    assert(b.subrange(24, (24 + d.data.len()) as int) == d.data);
}

/// What a shred is recovered from is the coded part of that shred.
pub proof fn lemma_read_shard_was_written(
    shard: Seq<u8>,
    slot: u64,
    index: u32,
    fec_set_index: u32,
    proof_size: u8,
    resigned: bool,
    signature: Seq<u8>,
)
    requires
        proof_size < 16,
        signature.len() == 64,
        wire::recovered_shred(
            shard,
            slot,
            index,
            fec_set_index,
            proof_size,
            resigned,
            signature,
        ) is Some,
    ensures
        exists|d: DataShred|
            {
                &&& d.sized()
                &&& #[trigger] d.coded() == shard
                &&& d.slot == slot && d.index == index && d.fec_set_index == fec_set_index
                &&& d.proof_size == proof_size && d.resigned == resigned && d.signature == signature
            },
{
    bytes::lemma_widths();
    let h = header_read(shard, 0);
    bytes::lemma_read_is_written(shard.subrange(19, 21));
    bytes::lemma_read_is_written(shard.subrange(22, 24));
    let end = bytes::le_at(shard, 22, 2)->0 - 64;
    let d = DataShred {
        signature,
        proof_size,
        resigned,
        slot,
        index,
        version: h.version,
        fec_set_index,
        parent_offset: bytes::le_at(shard, 19, 2)->0 as u16,
        flags: shard[21],
        data: shard.subrange(24, end),
        padding: shard.subrange(end, shard.len() as int),
        trailer: Seq::empty(),
    };
    lemma_variants(proof_size);
    assert(d.header() == h);
    lemma_coded(shard, 0, d);
    assert(shard.subrange(0, shard.len() as int) =~= shard);
    assert(d.coded() == shard);
}

/// A Merkle code shred.
pub struct CodeShred {
    pub signature: Seq<u8>,
    pub proof_size: u8,
    pub resigned: bool,
    pub slot: u64,
    pub index: u32,
    pub version: u16,
    pub fec_set_index: u32,
    pub num_data: u16,
    pub num_code: u16,
    pub position: u16,
    pub parity: Seq<u8>,
    pub trailer: Seq<u8>,
}

impl CodeShred {
    pub open spec fn header(self) -> Header {
        Header {
            variant: ((if self.resigned {
                0x70int
            } else {
                0x60
            }) + self.proof_size) as u8,
            slot: self.slot,
            index: self.index,
            version: self.version,
            fec_set_index: self.fec_set_index,
        }
    }

    pub open spec fn bytes(self) -> Seq<u8> {
        self.signature + (self.header().bytes() + (bytes::le_bytes(self.num_data as nat, 2) + (
        bytes::le_bytes(self.num_code as nat, 2) + (bytes::le_bytes(self.position as nat, 2) + (
        self.parity + self.trailer)))))
    }

    /// The set has data and code and is no larger than one can be, its data lies in the slot, and
    /// the shred is one of its code and fills a datagram.
    pub open spec fn wf(self) -> bool {
        &&& self.signature.len() == 64
        &&& self.proof_size < 16
        &&& 0 < self.num_data
        &&& self.position < self.num_code
        &&& self.num_data + self.num_code <= 256
        &&& self.fec_set_index + self.num_data <= 32_768
        &&& self.trailer.len() == trailer_len(self.proof_size, self.resigned)
        &&& self.bytes().len() == 1228
    }

    pub open spec fn view(self) -> WireShredView {
        WireShredView {
            slot: self.slot,
            index: self.index,
            fec_set_index: self.fec_set_index,
            proof_size: self.proof_size,
            resigned: self.resigned,
            signature: self.signature,
            kind: WireKind::Code {
                num_data: self.num_data as usize,
                num_code: self.num_code as usize,
                position: self.position as usize,
            },
            shard: self.parity,
            data: None,
        }
    }
}

/// A code shred stands where its fields do.
proof fn lemma_code(b: Seq<u8>, c: CodeShred)
    requires
        c.signature.len() == 64,
    ensures
        c.bytes().len() == 89 + c.parity.len() + c.trailer.len(),
        bytes::stands(b, 0, c.bytes()) <==> {
            &&& bytes::stands(b, 0, c.signature)
            &&& bytes::stands(b, 64, c.header().bytes())
            &&& bytes::le_at(b, 83, 2) == Some(c.num_data as nat)
            &&& bytes::le_at(b, 85, 2) == Some(c.num_code as nat)
            &&& bytes::le_at(b, 87, 2) == Some(c.position as nat)
            &&& bytes::stands(b, 89, c.parity)
            &&& bytes::stands(b, (89 + c.parity.len()) as int, c.trailer)
        },
{
    bytes::lemma_widths();
    lemma_header(b, 64, c.header());
    let p2 = c.header().bytes();
    let p3 = bytes::le_bytes(c.num_data as nat, 2);
    let p4 = bytes::le_bytes(c.num_code as nat, 2);
    let p5 = bytes::le_bytes(c.position as nat, 2);
    bytes::lemma_written_is_read(c.num_data as nat, 2);
    bytes::lemma_written_is_read(c.num_code as nat, 2);
    bytes::lemma_written_is_read(c.position as nat, 2);
    let r5 = c.parity + c.trailer;
    bytes::lemma_stands_both(b, 0, c.signature, p2 + (p3 + (p4 + (p5 + r5))));
    bytes::lemma_stands_both(b, 64, p2, p3 + (p4 + (p5 + r5)));
    bytes::lemma_stands_both(b, 83, p3, p4 + (p5 + r5));
    bytes::lemma_stands_both(b, 85, p4, p5 + r5);
    bytes::lemma_stands_both(b, 87, p5, r5);
    bytes::lemma_stands_both(b, 89, c.parity, c.trailer);
    bytes::lemma_number_stands(b, 83, c.num_data as nat, 2);
    bytes::lemma_number_stands(b, 85, c.num_code as nat, 2);
    bytes::lemma_number_stands(b, 87, c.position as nat, 2);
}

/// Every code shred is read as it was written, whatever follows it in the datagram.
pub proof fn lemma_written_code_is_read(c: CodeShred, rest: Seq<u8>)
    requires
        c.wf(),
    ensures
        wire::wire_shred(
            c.bytes() + rest,
            ShredKey { slot: c.slot, index: c.index, shred_type: ShredType::Code },
        ) == Some(c.view()),
{
    let b = c.bytes() + rest;
    assert(b.subrange(0, b.len() as int) =~= b);
    bytes::lemma_stands_both(b, 0, c.bytes(), rest);
    lemma_code(b, c);
    lemma_header(b, 64, c.header());
    lemma_variants(c.proof_size);
    let end = (89 + c.parity.len()) as int;
    assert(end == 1228 - trailer_len(c.proof_size, c.resigned));
    assert(b.subrange(89, end) == c.parity);
}

/// What is read as a code shred was written as one, of the slot and the index that the key says.
pub proof fn lemma_read_code_was_written(b: Seq<u8>, key: ShredKey)
    requires
        wire::wire_shred(b, key) matches Some(shred) && shred.is_code(),
    ensures
        exists|c: CodeShred|
            c.wf() && #[trigger] bytes::stands(b, 0, c.bytes()) && wire::wire_shred(b, key) == Some(
                c.view(),
            ) && key == (ShredKey { slot: c.slot, index: c.index, shred_type: ShredType::Code }),
{
    bytes::lemma_widths();
    let shred = wire::wire_shred(b, key)->0;
    let (is_data, proof_size, resigned) = wire::merkle_variant(b[64])->0;
    let end = 1228 - trailer_len(proof_size, resigned);
    let h = header_read(b, 64);
    bytes::lemma_read_is_written(b.subrange(83, 85));
    bytes::lemma_read_is_written(b.subrange(85, 87));
    bytes::lemma_read_is_written(b.subrange(87, 89));
    let c = CodeShred {
        signature: b.subrange(0, 64),
        proof_size,
        resigned,
        slot: h.slot,
        index: h.index,
        version: h.version,
        fec_set_index: h.fec_set_index,
        num_data: bytes::le_at(b, 83, 2)->0 as u16,
        num_code: bytes::le_at(b, 85, 2)->0 as u16,
        position: bytes::le_at(b, 87, 2)->0 as u16,
        parity: b.subrange(89, end),
        trailer: b.subrange(end, 1228),
    };
    lemma_variants(proof_size);
    assert(c.header() == h);
    lemma_code(b, c);
    assert(c.wf());
    assert(shred == c.view());
}

/// Two data shreds that differ in the tick alone are of the same kind: each ends a batch, or the
/// slot, where the other does.
pub proof fn lemma_tick_is_free(first: DataShred, second: DataShred, rest: Seq<u8>)
    requires
        first.wf(),
        second == (DataShred { flags: second.flags, ..first }),
        first.flags & 0xc0 == second.flags & 0xc0,
    ensures
        ({
            let key = ShredKey {
                slot: first.slot,
                index: first.index,
                shred_type: ShredType::Data,
            };
            let a = wire::wire_shred(first.bytes() + rest, key);
            let b = wire::wire_shred(second.bytes() + rest, key);
            &&& a is Some && b is Some
            &&& a->0.kind == b->0.kind
            &&& a->0.data == b->0.data
            &&& a->0.data_complete() == (first.flags & 0x40 == 0x40)
            &&& a->0.last_in_slot() == (first.flags & 0xc0 == 0xc0)
        }),
{
    let (f, g) = (first.flags, second.flags);
    assert(f & 0xc0 == g & 0xc0 ==> f & 0x40 == g & 0x40 && f & 0x80 == g & 0x80) by (bit_vector);
    assert(f & 0x40 != 0 <==> f & 0x40 == 0x40) by (bit_vector);
    assert((f & 0x40 != 0 && f & 0x80 != 0) <==> f & 0xc0 == 0xc0) by (bit_vector);
    lemma_coded(Seq::empty(), 0, first);
    lemma_coded(Seq::empty(), 0, second);
    lemma_written_data_is_read(first, rest);
    lemma_written_data_is_read(second, rest);
}

/// Every datagram with a signature and a header of another slot than zero is taken for a shred, and
/// kept whole, with its source and its time.
pub proof fn lemma_datagram_is_kept(
    event: Option<ShredEvent>,
    source: SourceId,
    signature: Seq<u8>,
    h: Header,
    rest: Seq<u8>,
    received_at: u64,
)
    requires
        signature.len() == 64,
        registry::is_read(event, source, signature + (h.bytes() + rest), received_at),
    ensures
        h.slot == 0 <==> event is None,
        event matches Some(event) ==> {
            &&& event.source == source
            &&& event.received_at == received_at
            &&& event.payload@ == signature + (h.bytes() + rest)
            &&& event.key.slot == h.slot
            &&& event.key.index == h.index
            &&& event.key.shred_type is Data <==> h.variant & 0x80 != 0
        },
{
    lemma_key_is_in_header(signature, h, rest);
}

} // verus!
