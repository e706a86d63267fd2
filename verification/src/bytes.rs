//! Little-endian integers on byte sequences.
//!
//! Every frame and artifact of the project stores its integers least
//! significant byte first. A `le*` function gives the bytes of a number, the
//! `of*` function of the same width gives the number back.

use vstd::prelude::*;

verus! {

/// The two bytes of `value`.
pub open spec fn le16(value: u16) -> Seq<u8> {
    seq![(value % 256) as u8, (value / 256) as u8]
}

/// The four bytes of `value`.
pub open spec fn le32(value: u32) -> Seq<u8> {
    seq![
        (value % 256) as u8,
        (value / 256 % 256) as u8,
        (value / 65_536 % 256) as u8,
        (value / 16_777_216) as u8,
    ]
}

/// The eight bytes of `value`: those of its low half, then those of its high
/// half.
pub open spec fn le64(value: u64) -> Seq<u8> {
    le32((value % 0x1_0000_0000) as u32) + le32((value / 0x1_0000_0000) as u32)
}

/// The number that two bytes stand for.
pub open spec fn of16(bytes: Seq<u8>) -> u16 {
    (bytes[0] + 256 * bytes[1]) as u16
}

/// The number that four bytes stand for.
pub open spec fn of32(bytes: Seq<u8>) -> u32 {
    (bytes[0] + 256 * bytes[1] + 65_536 * bytes[2] + 16_777_216 * bytes[3]) as u32
}

/// The number that eight bytes stand for.
pub open spec fn of64(bytes: Seq<u8>) -> u64 {
    (of32(bytes.subrange(0, 4)) + 0x1_0000_0000 * of32(bytes.subrange(4, 8))) as u64
}

/// The two's complement of a signed 32-bit number.
pub open spec fn unsigned32(value: i32) -> u32 {
    if value < 0 {
        (value + 0x1_0000_0000) as u32
    } else {
        value as u32
    }
}

/// The signed number whose two's complement is `value`.
pub open spec fn signed32(value: u32) -> i32 {
    if value < 0x8000_0000 {
        value as i32
    } else {
        (value - 0x1_0000_0000) as i32
    }
}

/// The two's complement of a signed 64-bit number.
pub open spec fn unsigned64(value: i64) -> u64 {
    if value < 0 {
        (value + 0x1_0000_0000_0000_0000) as u64
    } else {
        value as u64
    }
}

/// The signed number whose two's complement is `value`.
pub open spec fn signed64(value: u64) -> i64 {
    if value < 0x8000_0000_0000_0000 {
        value as i64
    } else {
        (value - 0x1_0000_0000_0000_0000) as i64
    }
}

/// Reading back the bytes of a 16-bit number gives the number.
pub proof fn lemma_of16_le16(value: u16)
    ensures
        le16(value).len() == 2,
        of16(le16(value)) == value,
{
}

/// Reading back the bytes of a 32-bit number gives the number.
pub proof fn lemma_of32_le32(value: u32)
    ensures
        le32(value).len() == 4,
        of32(le32(value)) == value,
{
}

/// Reading back the bytes of a 64-bit number gives the number.
pub proof fn lemma_of64_le64(value: u64)
    ensures
        le64(value).len() == 8,
        of64(le64(value)) == value,
{
    let low = (value % 0x1_0000_0000) as u32;
    let high = (value / 0x1_0000_0000) as u32;
    lemma_of32_le32(low);
    lemma_of32_le32(high);
    assert(le64(value).subrange(0, 4) =~= le32(low));
    assert(le64(value).subrange(4, 8) =~= le32(high));
}

/// Both conversions between a signed 32-bit number and its two's complement
/// undo each other.
pub proof fn lemma_signed32(value: i32, pattern: u32)
    ensures
        signed32(unsigned32(value)) == value,
        unsigned32(signed32(pattern)) == pattern,
{
}

/// Both conversions between a signed 64-bit number and its two's complement
/// undo each other.
pub proof fn lemma_signed64(value: i64, pattern: u64)
    ensures
        signed64(unsigned64(value)) == value,
        unsigned64(signed64(pattern)) == pattern,
{
}

/// Reads a 16-bit number at `offset`.
pub fn u16_at(bytes: &[u8], offset: usize) -> (value: u16)
    requires
        offset + 2 <= bytes@.len(),
    ensures
        value == of16(bytes@.subrange(offset as int, offset + 2)),
{
    bytes[offset] as u16 + 256 * (bytes[offset + 1] as u16)
}

/// Reads a 32-bit number at `offset`.
pub fn u32_at(bytes: &[u8], offset: usize) -> (value: u32)
    requires
        offset + 4 <= bytes@.len(),
    ensures
        value == of32(bytes@.subrange(offset as int, offset + 4)),
{
    bytes[offset] as u32 + 256 * (bytes[offset + 1] as u32) + 65_536 * (bytes[offset + 2] as u32)
        + 16_777_216 * (bytes[offset + 3] as u32)
}

/// Reads a 64-bit number at `offset`.
pub fn u64_at(bytes: &[u8], offset: usize) -> (value: u64)
    requires
        offset + 8 <= bytes@.len(),
    ensures
        value == of64(bytes@.subrange(offset as int, offset + 8)),
{
    assert(offset + 8 <= bytes.len());
    let low: u32 = u32_at(bytes, offset);
    let high: u32 = u32_at(bytes, offset + 4);
    proof {
        let part = bytes@.subrange(offset as int, offset + 8);
        assert(part.subrange(0, 4) =~= bytes@.subrange(offset as int, offset + 4));
        assert(part.subrange(4, 8) =~= bytes@.subrange(offset + 4, offset + 8));
    }
    low as u64 + 0x1_0000_0000 * (high as u64)
}

/// The signed number with the given two's complement.
pub fn to_signed32(value: u32) -> (result: i32)
    ensures
        result == signed32(value),
{
    if value < 0x8000_0000 {
        value as i32
    } else {
        (value as i64 - 0x1_0000_0000) as i32
    }
}

/// The two's complement of a signed number.
pub fn to_unsigned32(value: i32) -> (result: u32)
    ensures
        result == unsigned32(value),
{
    if value < 0 {
        (value as i64 + 0x1_0000_0000) as u32
    } else {
        value as u32
    }
}

/// The signed number with the given two's complement.
pub fn to_signed64(value: u64) -> (result: i64)
    ensures
        result == signed64(value),
{
    if value < 0x8000_0000_0000_0000 {
        value as i64
    } else {
        (value as i128 - 0x1_0000_0000_0000_0000) as i64
    }
}

/// The two's complement of a signed number.
pub fn to_unsigned64(value: i64) -> (result: u64)
    ensures
        result == unsigned64(value),
{
    if value < 0 {
        (value as i128 + 0x1_0000_0000_0000_0000) as u64
    } else {
        value as u64
    }
}

/// Appends `bytes` to `out`.
pub fn put_bytes(out: &mut Vec<u8>, bytes: &[u8])
    ensures
        final(out)@ == old(out)@ + bytes@,
{
    out.extend_from_slice(bytes);
    assert(out@ =~= old(out)@ + bytes@);
}

/// Appends the bytes of a 16-bit number.
pub fn put_u16(out: &mut Vec<u8>, value: u16)
    ensures
        final(out)@ == old(out)@ + le16(value),
{
    out.push((value % 256) as u8);
    out.push((value / 256) as u8);
    assert(out@ =~= old(out)@ + le16(value));
}

/// Appends the bytes of a 32-bit number.
pub fn put_u32(out: &mut Vec<u8>, value: u32)
    ensures
        final(out)@ == old(out)@ + le32(value),
{
    out.push((value % 256) as u8);
    out.push((value / 256 % 256) as u8);
    out.push((value / 65_536 % 256) as u8);
    out.push((value / 16_777_216) as u8);
    assert(out@ =~= old(out)@ + le32(value));
}

/// Appends the bytes of a 64-bit number.
pub fn put_u64(out: &mut Vec<u8>, value: u64)
    ensures
        final(out)@ == old(out)@ + le64(value),
{
    put_u32(out, (value % 0x1_0000_0000) as u32);
    put_u32(out, (value / 0x1_0000_0000) as u32);
    assert(out@ =~= old(out)@ + le64(value));
}

} // verus!
