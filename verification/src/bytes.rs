//! Fixed-width little-endian reads out of a byte buffer.

use vstd::arithmetic::power::{lemma_pow0, pow};
use vstd::prelude::*;

verus! {

/// The number that `bytes` spell, least significant byte first.
pub open spec fn le_value(bytes: Seq<u8>) -> nat
    decreases bytes.len(),
{
    if bytes.len() == 0 {
        0
    } else {
        bytes[0] as nat + 256 * le_value(bytes.drop_first())
    }
}

/// The little-endian number in the `width` bytes at `offset`, if the buffer has them all.
pub open spec fn le_at(bytes: Seq<u8>, offset: int, width: nat) -> Option<nat> {
    if 0 <= offset && offset + width <= bytes.len() {
        Some(le_value(bytes.subrange(offset, offset + width)))
    } else {
        None
    }
}

/// The `width` bytes that spell a number, least significant byte first.
pub open spec fn le_bytes(n: nat, width: nat) -> Seq<u8>
    decreases width,
{
    if width == 0 {
        Seq::empty()
    } else {
        seq![(n % 256) as u8] + le_bytes(n / 256, (width - 1) as nat)
    }
}

/// A number that fits in `width` bytes is read back from the bytes that spell it.
pub proof fn lemma_written_is_read(n: nat, width: nat)
    requires
        n < pow(256, width),
    ensures
        le_bytes(n, width).len() == width,
        le_value(le_bytes(n, width)) == n,
    decreases width,
{
    if width == 0 {
        lemma_pow0(256);
    } else {
        let rest = (width - 1) as nat;
        vstd::arithmetic::power::lemma_pow1(256);
        vstd::arithmetic::power::lemma_pow_adds(256, 1, rest);
        let most = pow(256, rest);
        assert(n / 256 < most) by (nonlinear_arith)
            requires
                n < 256 * most,
        ;
        lemma_written_is_read(n / 256, rest);
        assert(le_bytes(n, width).drop_first() =~= le_bytes(n / 256, rest));
    }
}

/// The bytes that spell the number that was read are those that it was read from.
pub proof fn lemma_read_is_written(b: Seq<u8>)
    ensures
        le_bytes(le_value(b), b.len()) == b,
        le_value(b) < pow(256, b.len()),
    decreases b.len(),
{
    if b.len() == 0 {
        lemma_pow0(256);
    } else {
        let rest = b.drop_first();
        lemma_read_is_written(rest);
        vstd::arithmetic::power::lemma_pow1(256);
        vstd::arithmetic::power::lemma_pow_adds(256, 1, rest.len());
        assert(le_bytes(le_value(b), b.len()) =~= b);
    }
}

/// How many numbers fit in two, four and eight bytes.
pub(crate) proof fn lemma_widths()
    ensures
        pow(256, 2) == 0x1_0000,
        pow(256, 4) == 0x1_0000_0000,
        pow(256, 8) == 0x1_0000_0000_0000_0000,
{
    reveal_with_fuel(pow, 9);
}

/// Whether `part` stands in `b` at `at`.
pub open spec fn stands(b: Seq<u8>, at: int, part: Seq<u8>) -> bool {
    &&& 0 <= at
    &&& at + part.len() <= b.len()
    &&& b.subrange(at, at + part.len()) == part
}

/// Two parts stand together where one stands behind the other.
pub(crate) proof fn lemma_stands_both(b: Seq<u8>, at: int, first: Seq<u8>, second: Seq<u8>)
    ensures
        stands(b, at, first + second) <==> stands(b, at, first) && stands(
            b,
            at + first.len(),
            second,
        ),
{
    let both = first + second;
    if stands(b, at, both) {
        assert(b.subrange(at, at + first.len()) =~= both.take(first.len() as int));
        assert(both.take(first.len() as int) =~= first);
        assert(b.subrange(at + first.len(), at + both.len()) =~= both.skip(first.len() as int));
        assert(both.skip(first.len() as int) =~= second);
    }
    if stands(b, at, first) && stands(b, at + first.len(), second) {
        assert forall|i: int| 0 <= i < both.len() implies b[at + i] == both[i] by {
            if i < first.len() {
                assert(b.subrange(at, at + first.len())[i] == first[i]);
            } else {
                assert(b.subrange(at + first.len(), at + both.len())[i - first.len()] == second[i
                    - first.len()]);
            }
        }
        assert(b.subrange(at, at + both.len()) =~= both);
    }
}

/// A number is read where the bytes that spell it stand, and only there.
pub proof fn lemma_number_stands(b: Seq<u8>, at: int, n: nat, width: nat)
    requires
        n < pow(256, width),
    ensures
        stands(b, at, le_bytes(n, width)) <==> le_at(b, at, width) == Some(n),
{
    lemma_written_is_read(n, width);
    if le_at(b, at, width) == Some(n) {
        lemma_read_is_written(b.subrange(at, at + width));
    }
}

proof fn lemma_le_value_2(b: Seq<u8>)
    requires
        b.len() == 2,
    ensures
        le_value(b) == b[0] + 0x100 * b[1],
{
    reveal_with_fuel(le_value, 3);
}

pub(crate) proof fn lemma_le_value_4(b: Seq<u8>)
    requires
        b.len() == 4,
    ensures
        le_value(b) == b[0] + 0x100 * b[1] + 0x1_0000 * b[2] + 0x100_0000 * b[3],
{
    reveal_with_fuel(le_value, 5);
}

/// Reads the `u16` at `offset`.
pub fn read_u16(bytes: &[u8], offset: usize) -> (value: Option<u16>)
    ensures
        value is Some == le_at(bytes@, offset as int, 2) is Some,
        value matches Some(v) ==> le_at(bytes@, offset as int, 2) == Some(v as nat),
{
    let available: usize = bytes.len();
    if offset > available || available - offset < 2 {
        return None;
    }
    proof {
        lemma_le_value_2(bytes@.subrange(offset as int, offset + 2));
    }
    Some(bytes[offset] as u16 + 0x100 * (bytes[offset + 1] as u16))
}

/// Reads the `u32` at `offset`.
pub fn read_u32(bytes: &[u8], offset: usize) -> (value: Option<u32>)
    ensures
        value is Some == le_at(bytes@, offset as int, 4) is Some,
        value matches Some(v) ==> le_at(bytes@, offset as int, 4) == Some(v as nat),
{
    let available: usize = bytes.len();
    if offset > available || available - offset < 4 {
        return None;
    }
    proof {
        lemma_le_value_4(bytes@.subrange(offset as int, offset + 4));
    }
    Some(
        bytes[offset] as u32 + 0x100 * (bytes[offset + 1] as u32) + 0x1_0000 * (bytes[offset
            + 2] as u32) + 0x100_0000 * (bytes[offset + 3] as u32),
    )
}

/// Reads the `u64` at `offset`.
pub fn read_u64(bytes: &[u8], offset: usize) -> (value: Option<u64>)
    ensures
        value is Some == le_at(bytes@, offset as int, 8) is Some,
        value matches Some(v) ==> le_at(bytes@, offset as int, 8) == Some(v as nat),
{
    let available: usize = bytes.len();
    if offset > available || available - offset < 8 {
        return None;
    }
    proof {
        let all = bytes@.subrange(offset as int, offset + 8);
        lemma_le_value_8(all);
        assert(all.subrange(0, 4) =~= bytes@.subrange(offset as int, offset + 4));
        assert(all.subrange(4, 8) =~= bytes@.subrange(offset + 4, offset + 8));
    }
    match (read_u32(bytes, offset), read_u32(bytes, offset + 4)) {
        (Some(low), Some(high)) => Some(low as u64 + 0x1_0000_0000 * (high as u64)),
        _ => None,
    }
}

proof fn lemma_le_value_8(b: Seq<u8>)
    requires
        b.len() == 8,
    ensures
        le_value(b) == le_value(b.subrange(0, 4)) + 0x1_0000_0000 * le_value(b.subrange(4, 8)),
{
    lemma_le_value_4(b.subrange(0, 4));
    lemma_le_value_4(b.subrange(4, 8));
    let high = b.subrange(4, 8);
    let s3 = b.subrange(3, 8);
    let s2 = b.subrange(2, 8);
    let s1 = b.subrange(1, 8);
    assert(s3.drop_first() =~= high);
    assert(s2.drop_first() =~= s3);
    assert(s1.drop_first() =~= s2);
    assert(b.drop_first() =~= s1);
    assert(le_value(s3) == b[3] + 256 * le_value(high));
    assert(le_value(s2) == b[2] + 256 * le_value(s3));
    assert(le_value(s1) == b[1] + 256 * le_value(s2));
}

} // verus!
