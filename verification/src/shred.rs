//! What a shred is known by.
//!
//! A shred starts with a 64-byte signature. Behind it stand the variant byte, the slot (`u64`), the
//! index (`u32`), the version (`u16`) and the index of the shred's FEC set (`u32`), all of them
//! little-endian.

use vstd::prelude::*;

use crate::bytes;

verus! {

#[derive(Debug, Clone, Copy, PartialEq, Eq, Hash, PartialOrd, Ord, Structural)]
pub enum ShredType {
    Data,
    Code,
}

impl ShredType {
    /// The name that the log gives the type.
    pub open spec fn label_text(self) -> Seq<char> {
        match self {
            ShredType::Data => "data"@,
            ShredType::Code => "code"@,
        }
    }

    pub fn label(&self) -> (label: &'static str)
        ensures
            label@ == self.label_text(),
    {
        match self {
            ShredType::Data => "data",
            ShredType::Code => "code",
        }
    }
}

/// The least a buffer must hold to have all of the common header.
pub const MIN_SHRED_SIZE: usize = 83;

pub const VARIANT_OFFSET: usize = 64;

pub const SLOT_OFFSET: usize = 65;

pub const INDEX_OFFSET: usize = 73;

pub const FEC_SET_OFFSET: usize = 79;

/// The type that a variant byte stands for: its top bit tells data from code.
pub open spec fn variant_type(variant: u8) -> ShredType {
    if variant >= 0x80 {
        ShredType::Data
    } else {
        ShredType::Code
    }
}

/// The type of a shred, from its variant byte. The two variants of old, `0xA5` for data and `0x5A`
/// for code, follow the rule of the top bit as the others do.
pub fn shred_type(variant: u8) -> (kind: ShredType)
    ensures
        kind == variant_type(variant),
{
    if variant >= 0x80 {
        ShredType::Data
    } else {
        ShredType::Code
    }
}

#[derive(Debug, Clone, Copy, PartialEq, Eq, Hash, Structural)]
pub struct ShredKey {
    pub slot: u64,
    pub index: u32,
    pub shred_type: ShredType,
}

/// The key of the shred in `buf`: there is one where the common header is complete and the slot is
/// not zero.
pub open spec fn shred_key(buf: Seq<u8>) -> Option<ShredKey> {
    if buf.len() < MIN_SHRED_SIZE {
        None
    } else {
        let slot = bytes::le_at(buf, SLOT_OFFSET as int, 8)->0;
        let index = bytes::le_at(buf, INDEX_OFFSET as int, 4)->0;
        if slot == 0 {
            None
        } else {
            Some(
                ShredKey {
                    slot: slot as u64,
                    index: index as u32,
                    shred_type: variant_type(buf[VARIANT_OFFSET as int]),
                },
            )
        }
    }
}

/// Reads the key of the shred in a datagram.
pub fn parse_shred_key(buf: &[u8]) -> (key: Option<ShredKey>)
    ensures
        key == shred_key(buf@),
{
    if buf.len() < MIN_SHRED_SIZE {
        return None;
    }
    let variant: u8 = buf[VARIANT_OFFSET];
    match (bytes::read_u64(buf, SLOT_OFFSET), bytes::read_u32(buf, INDEX_OFFSET)) {
        (Some(slot), Some(index)) => {
            if slot == 0 {
                None
            } else {
                Some(ShredKey { slot, index, shred_type: shred_type(variant) })
            }
        },
        _ => None,
    }
}

} // verus!
