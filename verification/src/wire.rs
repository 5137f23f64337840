//! Merkle shreds: their layout on the wire, and the part of them that erasure coding covers.
//!
//! A data shred carries ledger bytes behind an 88-byte header, a code shred carries parity behind an
//! 89-byte one. Both end in a trailer: a Merkle root, a proof of up to fifteen entries and, in
//! a resigned shred, a second signature.

use std::sync::Arc;

use vstd::prelude::*;

use crate::bytes;
use crate::registry::ShredEvent;
use crate::shred::{ShredKey, ShredType, FEC_SET_OFFSET, INDEX_OFFSET, SLOT_OFFSET, VARIANT_OFFSET};

verus! {

pub const MAX_DATA_SHREDS_PER_SLOT: u32 = 32_768;

pub const DATA_PAYLOAD_SIZE: usize = 1_203;

pub const CODE_PAYLOAD_SIZE: usize = 1_228;

pub const SIGNATURE_SIZE: usize = 64;

pub const DATA_HEADER_SIZE: usize = 88;

pub const CODE_HEADER_SIZE: usize = 89;

pub const MERKLE_ROOT_SIZE: usize = 32;

pub const MERKLE_PROOF_ENTRY_SIZE: usize = 20;

/// The most shards, data and code together, that an FEC set can have.
pub const MAX_SHARDS_PER_SET: usize = 256;

#[derive(Clone, Copy, Debug, PartialEq, Eq, Structural)]
pub enum WireKind {
    Data { data_complete: bool, last_in_slot: bool },
    Code { num_data: usize, num_code: usize, position: usize },
}

/// What a shred says, wherever its bytes are kept.
#[verifier::ext_equal]
pub struct WireShredView {
    pub slot: u64,
    pub index: u32,
    pub fec_set_index: u32,
    pub proof_size: u8,
    pub resigned: bool,
    pub signature: Seq<u8>,
    pub kind: WireKind,
    /// The bytes that erasure coding covers.
    pub shard: Seq<u8>,
    /// The ledger bytes of a data shred.
    pub data: Option<Seq<u8>>,
}

impl WireShredView {
    pub open spec fn is_data(self) -> bool {
        self.kind is Data
    }

    pub open spec fn is_code(self) -> bool {
        self.kind is Code
    }

    pub open spec fn data_complete(self) -> bool {
        self.kind matches WireKind::Data { data_complete, .. } && data_complete
    }

    pub open spec fn last_in_slot(self) -> bool {
        self.kind matches WireKind::Data { last_in_slot, .. } && last_in_slot
    }
}

/// The variants of Merkle shreds: whether the shred carries data, how many entries its proof has,
/// and whether it is resigned.
pub open spec fn merkle_variant(variant: u8) -> Option<(bool, u8, bool)> {
    let family = variant / 16;
    let proof_size = (variant % 16) as u8;
    if family == 0x9 {
        Some((true, proof_size, false))
    } else if family == 0xb {
        Some((true, proof_size, true))
    } else if family == 0x6 {
        Some((false, proof_size, false))
    } else if family == 0x7 {
        Some((false, proof_size, true))
    } else {
        None
    }
}

/// How many bytes the root, the proof and the second signature take up.
pub open spec fn trailer_size(proof_size: u8, resigned: bool) -> int {
    MERKLE_ROOT_SIZE + MERKLE_PROOF_ENTRY_SIZE * proof_size + if resigned {
        SIGNATURE_SIZE as int
    } else {
        0
    }
}

/// What the flags of a data shred say.
pub open spec fn data_kind(flags: u8) -> WireKind {
    WireKind::Data { data_complete: (flags / 64) % 2 == 1, last_in_slot: flags / 64 == 3 }
}

/// The number of `width` bytes at `offset`, in a buffer that holds them.
pub open spec fn field(b: Seq<u8>, offset: int, width: nat) -> nat {
    bytes::le_at(b, offset, width)->0
}

/// The shred in a datagram, if it is a Merkle shred that `key` is the key of.
pub open spec fn wire_shred(b: Seq<u8>, key: ShredKey) -> Option<WireShredView> {
    if b.len() <= VARIANT_OFFSET {
        None
    } else {
        match merkle_variant(b[VARIANT_OFFSET as int]) {
            None => None,
            Some((is_data, proof_size, resigned)) => {
                let payload_size = if is_data {
                    DATA_PAYLOAD_SIZE
                } else {
                    CODE_PAYLOAD_SIZE
                };
                let shard_end = payload_size - trailer_size(proof_size, resigned);
                let slot = field(b, SLOT_OFFSET as int, 8);
                let index = field(b, INDEX_OFFSET as int, 4);
                let fec_set_index = field(b, FEC_SET_OFFSET as int, 4);
                let common = WireShredView {
                    slot: slot as u64,
                    index: index as u32,
                    fec_set_index: fec_set_index as u32,
                    proof_size,
                    resigned,
                    signature: b.subrange(0, SIGNATURE_SIZE as int),
                    kind: data_kind(0),
                    shard: Seq::empty(),
                    data: None,
                };
                if b.len() < payload_size || key.slot != slot || key.index != index
                    || key.shred_type is Data != is_data {
                    None
                } else if is_data {
                    data_fields(b, common, shard_end)
                } else {
                    code_fields(b, common, shard_end)
                }
            },
        }
    }
}

/// A data shred: its index lies in its FEC set and in the slot, and its size in the coded part.
pub open spec fn data_fields(b: Seq<u8>, common: WireShredView, shard_end: int) -> Option<
    WireShredView,
> {
    let size = field(b, 86, 2);
    if common.index < common.fec_set_index || common.index >= MAX_DATA_SHREDS_PER_SLOT || size
        < DATA_HEADER_SIZE || size > shard_end {
        None
    } else {
        Some(
            WireShredView {
                kind: data_kind(b[85]),
                shard: b.subrange(SIGNATURE_SIZE as int, shard_end),
                data: Some(b.subrange(DATA_HEADER_SIZE as int, size as int)),
                ..common
            },
        )
    }
}

/// A code shred: its FEC set has data and code, its position lies in the code, and its data lies
/// in the slot.
pub open spec fn code_fields(b: Seq<u8>, common: WireShredView, shard_end: int) -> Option<
    WireShredView,
> {
    let num_data = field(b, 83, 2);
    let num_code = field(b, 85, 2);
    let position = field(b, 87, 2);
    if num_data == 0 || num_code == 0 || num_data + num_code > MAX_SHARDS_PER_SET || position
        >= num_code || common.fec_set_index + num_data > MAX_DATA_SHREDS_PER_SLOT {
        None
    } else {
        Some(
            WireShredView {
                kind: WireKind::Code {
                    num_data: num_data as usize,
                    num_code: num_code as usize,
                    position: position as usize,
                },
                shard: b.subrange(CODE_HEADER_SIZE as int, shard_end),
                ..common
            },
        )
    }
}

/// A data shred out of its recovered shard, if the shard spells the shred that was looked for. The
/// shard starts at the variant byte, so each field stands 64 bytes earlier than in a datagram.
pub open spec fn recovered_shred(
    shard: Seq<u8>,
    slot: u64,
    index: u32,
    fec_set_index: u32,
    proof_size: u8,
    resigned: bool,
    signature: Seq<u8>,
) -> Option<WireShredView> {
    let data_end = field(shard, 22, 2) - SIGNATURE_SIZE;
    let family: u8 = if resigned {
        0xb0
    } else {
        0x90
    };
    if shard.len() < 24 || shard[0] != family | proof_size || field(shard, 1, 8) != slot || field(
        shard,
        9,
        4,
    ) != index || field(shard, 15, 4) != fec_set_index || data_end < 24 || data_end
        > shard.len() {
        None
    } else {
        Some(
            WireShredView {
                slot,
                index,
                fec_set_index,
                proof_size,
                resigned,
                signature,
                kind: data_kind(shard[21]),
                shard,
                data: Some(shard.subrange(24, data_end)),
            },
        )
    }
}

/// A shred, over bytes that it may share with others.
pub struct WireShred {
    pub bytes: Arc<Vec<u8>>,
    pub shard_start: usize,
    pub shard_end: usize,
    pub data_range: Option<(usize, usize)>,
    pub slot: u64,
    pub index: u32,
    pub fec_set_index: u32,
    pub proof_size: u8,
    pub resigned: bool,
    pub signature: Vec<u8>,
    pub kind: WireKind,
}

impl View for WireShred {
    type V = WireShredView;

    open spec fn view(&self) -> WireShredView {
        WireShredView {
            slot: self.slot,
            index: self.index,
            fec_set_index: self.fec_set_index,
            proof_size: self.proof_size,
            resigned: self.resigned,
            signature: self.signature@,
            kind: self.kind,
            shard: self.bytes@.subrange(self.shard_start as int, self.shard_end as int),
            data: match self.data_range {
                Some((start, end)) => Some(self.bytes@.subrange(start as int, end as int)),
                None => None,
            },
        }
    }
}

/// Copies the bytes from `start` up to `end`.
pub fn copy_range(bytes: &[u8], start: usize, end: usize) -> (copy: Vec<u8>)
    requires
        start <= end <= bytes@.len(),
    ensures
        copy@ == bytes@.subrange(start as int, end as int),
{
    let mut copy: Vec<u8> = Vec::new();
    copy.extend_from_slice(vstd::slice::slice_subrange(bytes, start, end));
    copy
}

impl WireShred {
    /// The ranges lie in the bytes.
    pub open spec fn wf(&self) -> bool {
        &&& self.shard_start <= self.shard_end <= self.bytes@.len()
        &&& self.data_range matches Some((start, end)) ==> start <= end <= self.bytes@.len()
    }

    /// Reads the shred of an event.
    pub fn parse(event: &ShredEvent) -> (shred: Option<WireShred>)
        ensures
            match shred {
                Some(s) => s.wf() && wire_shred(event.payload@, event.key) == Some(s@),
                None => wire_shred(event.payload@, event.key) is None,
            },
    {
        let payload: Arc<Vec<u8>> = event.payload.clone();
        let b: &[u8] = payload.as_slice();
        if b.len() <= VARIANT_OFFSET {
            return None;
        }
        let variant: u8 = b[VARIANT_OFFSET];
        let family: u8 = variant / 16;
        let proof_size: u8 = variant % 16;
        let is_data: bool = family == 0x9 || family == 0xb;
        let resigned: bool = family == 0xb || family == 0x7;
        if !is_data && family != 0x6 && family != 0x7 {
            return None;
        }
        let payload_size: usize = if is_data {
            DATA_PAYLOAD_SIZE
        } else {
            CODE_PAYLOAD_SIZE
        };
        if b.len() < payload_size {
            return None;
        }
        let (slot, index, fec_set_index): (u64, u32, u32) = match (
            bytes::read_u64(b, SLOT_OFFSET),
            bytes::read_u32(b, INDEX_OFFSET),
            bytes::read_u32(b, FEC_SET_OFFSET),
        ) {
            (Some(slot), Some(index), Some(fec_set_index)) => (slot, index, fec_set_index),
            _ => return None,
        };
        let wants_data: bool = match event.key.shred_type {
            ShredType::Data => true,
            ShredType::Code => false,
        };
        if event.key.slot != slot || event.key.index != index || wants_data != is_data {
            return None;
        }
        let trailer: usize = MERKLE_ROOT_SIZE + MERKLE_PROOF_ENTRY_SIZE * (proof_size as usize)
            + if resigned {
            SIGNATURE_SIZE
        } else {
            0
        };
        let shard_end: usize = payload_size - trailer;
        let signature: Vec<u8> = copy_range(b, 0, SIGNATURE_SIZE);
        if is_data {
            if index < fec_set_index || index >= MAX_DATA_SHREDS_PER_SLOT {
                return None;
            }
            let flags: u8 = b[85];
            let size: usize = match bytes::read_u16(b, 86) {
                Some(size) => size as usize,
                None => return None,
            };
            if size < DATA_HEADER_SIZE || size > shard_end {
                return None;
            }
            let shred = WireShred {
                bytes: payload,
                shard_start: SIGNATURE_SIZE,
                shard_end,
                data_range: Some((DATA_HEADER_SIZE, size)),
                slot,
                index,
                fec_set_index,
                proof_size,
                resigned,
                signature,
                kind: WireKind::Data {
                    data_complete: (flags / 64) % 2 == 1,
                    last_in_slot: flags / 64 == 3,
                },
            };
            Some(shred)
        } else {
            let (num_data, num_code, position): (usize, usize, usize) = match (
                bytes::read_u16(b, 83),
                bytes::read_u16(b, 85),
                bytes::read_u16(b, 87),
            ) {
                (Some(num_data), Some(num_code), Some(position)) => (
                    num_data as usize,
                    num_code as usize,
                    position as usize,
                ),
                _ => return None,
            };
            if num_data == 0 || num_code == 0 || num_data + num_code > MAX_SHARDS_PER_SET
                || position >= num_code {
                return None;
            }
            if fec_set_index > MAX_DATA_SHREDS_PER_SLOT || fec_set_index + num_data as u32
                > MAX_DATA_SHREDS_PER_SLOT {
                return None;
            }
            Some(
                WireShred {
                    bytes: payload,
                    shard_start: CODE_HEADER_SIZE,
                    shard_end,
                    data_range: None,
                    slot,
                    index,
                    fec_set_index,
                    proof_size,
                    resigned,
                    signature,
                    kind: WireKind::Code { num_data, num_code, position },
                },
            )
        }
    }

    /// Makes a data shred of a recovered shard, if the shard is the one that was looked for.
    pub fn from_recovered_data(
        shard: Vec<u8>,
        slot: u64,
        index: u32,
        fec_set_index: u32,
        proof_size: u8,
        resigned: bool,
        signature: Vec<u8>,
    ) -> (shred: Option<WireShred>)
        ensures
            ({
                let spelled = recovered_shred(
                    shard@,
                    slot,
                    index,
                    fec_set_index,
                    proof_size,
                    resigned,
                    signature@,
                );
                match shred {
                    Some(s) => s.wf() && spelled == Some(s@),
                    None => spelled is None,
                }
            }),
    {
        let b: &[u8] = shard.as_slice();
        let shard_end: usize = b.len();
        if shard_end < 24 {
            return None;
        }
        let variant: u8 = b[0];
        let family: u8 = if resigned {
            0xb0
        } else {
            0x90
        };
        let (found_slot, found_index, found_set, size): (u64, u32, u32, usize) = match (
            bytes::read_u64(b, 1),
            bytes::read_u32(b, 9),
            bytes::read_u32(b, 15),
            bytes::read_u16(b, 22),
        ) {
            (Some(slot), Some(index), Some(set), Some(size)) => (slot, index, set, size as usize),
            _ => return None,
        };
        let flags: u8 = b[21];
        if size < SIGNATURE_SIZE {
            return None;
        }
        let data_end: usize = size - SIGNATURE_SIZE;
        if variant != family | proof_size || found_slot != slot || found_index != index
            || found_set != fec_set_index || data_end < 24 || data_end > shard_end {
            return None;
        }
        let ghost whole = shard@;
        let shred = WireShred {
            bytes: Arc::new(shard),
            shard_start: 0,
            shard_end,
            data_range: Some((24, data_end)),
            slot,
            index,
            fec_set_index,
            proof_size,
            resigned,
            signature,
            kind: WireKind::Data {
                data_complete: (flags / 64) % 2 == 1,
                last_in_slot: flags / 64 == 3,
            },
        };
        assert(whole.subrange(0, shard_end as int) =~= whole);
        Some(shred)
    }

    pub fn is_data(&self) -> (is: bool)
        ensures
            is == self@.is_data(),
    {
        matches!(self.kind, WireKind::Data { .. })
    }

    pub fn is_code(&self) -> (is: bool)
        ensures
            is == self@.is_code(),
    {
        matches!(self.kind, WireKind::Code { .. })
    }

    /// Whether a batch of entries ends with this shred.
    pub fn data_complete(&self) -> (is: bool)
        ensures
            is == self@.data_complete(),
    {
        match self.kind {
            WireKind::Data { data_complete, .. } => data_complete,
            WireKind::Code { .. } => false,
        }
    }

    /// Whether the slot ends with this shred.
    pub fn last_in_slot(&self) -> (is: bool)
        ensures
            is == self@.last_in_slot(),
    {
        match self.kind {
            WireKind::Data { last_in_slot, .. } => last_in_slot,
            WireKind::Code { .. } => false,
        }
    }

    /// The bytes that erasure coding covers.
    pub fn erasure_shard(&self) -> (shard: &[u8])
        requires
            self.wf(),
        ensures
            shard@ == self@.shard,
    {
        vstd::slice::slice_subrange(self.bytes.as_slice(), self.shard_start, self.shard_end)
    }

    /// The ledger bytes, which only a data shred has.
    pub fn data(&self) -> (data: Option<&[u8]>)
        requires
            self.wf(),
        ensures
            match data {
                Some(d) => self@.data == Some(d@),
                None => self@.data is None,
            },
    {
        match self.data_range {
            Some((start, end)) => Some(
                vstd::slice::slice_subrange(self.bytes.as_slice(), start, end),
            ),
            None => None,
        }
    }
}

/// A field stands in a part of a buffer where it stands in the buffer, less where the part starts.
proof fn lemma_field_in_part(b: Seq<u8>, start: int, end: int, offset: int, width: nat)
    requires
        0 <= start <= end <= b.len(),
        0 <= offset,
        offset + width <= end - start,
    ensures
        field(b.subrange(start, end), offset, width) == field(b, start + offset, width),
{
    assert(b.subrange(start, end).subrange(offset, offset + width) =~= b.subrange(
        start + offset,
        start + offset + width,
    ));
}

/// The shard of a data shred spells the shred: recovering the shard recovers the shred.
pub proof fn lemma_shard_spells_shred(b: Seq<u8>, key: ShredKey)
    ensures
        wire_shred(b, key) matches Some(shred) ==> shred.is_data() ==> recovered_shred(
            shred.shard,
            shred.slot,
            shred.index,
            shred.fec_set_index,
            shred.proof_size,
            shred.resigned,
            shred.signature,
        ) == Some(shred),
{
    if let Some(shred) = wire_shred(b, key) {
        if shred.is_data() {
            let variant = b[VARIANT_OFFSET as int];
            let shard = shred.shard;
            let start = SIGNATURE_SIZE as int;
            let end = start + shard.len();
            assert(shard =~= b.subrange(start, end));
            lemma_field_in_part(b, start, end, 1, 8);
            lemma_field_in_part(b, start, end, 9, 4);
            lemma_field_in_part(b, start, end, 15, 4);
            lemma_field_in_part(b, start, end, 22, 2);
            bytes::lemma_le_value_4(b.subrange(FEC_SET_OFFSET as int, FEC_SET_OFFSET + 4));
            assert(variant / 16 == 0x9 ==> variant == 0x90u8 | (variant % 16)) by (bit_vector);
            assert(variant / 16 == 0xb ==> variant == 0xb0u8 | (variant % 16)) by (bit_vector);
            let size = field(b, 86, 2);
            assert(shard.subrange(24, size - start) =~= b.subrange(
                DATA_HEADER_SIZE as int,
                size as int,
            ));
        }
    }
}

} // verus!
