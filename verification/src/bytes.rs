//! Little-endian integers inside byte sequences.

use vstd::prelude::*;

verus! {

/// The unsigned 32-bit integer at `at`.
pub open spec fn le_u32_at(s: Seq<u8>, at: int) -> u32 {
    (s[at] + 0x100 * s[at + 1] + 0x1_0000 * s[at + 2] + 0x100_0000 * s[at + 3]) as u32
}

/// The unsigned 64-bit integer at `at`.
pub open spec fn le_u64_at(s: Seq<u8>, at: int) -> u64 {
    (le_u32_at(s, at) + 0x1_0000_0000 * le_u32_at(s, at + 4)) as u64
}

/// The two's-complement reading of a 32-bit pattern.
pub open spec fn signed_32(v: u32) -> i32 {
    if v < 0x8000_0000 {
        v as i32
    } else {
        (v - 0x1_0000_0000) as i32
    }
}

/// The two's-complement reading of a byte.
pub open spec fn signed_8(v: u8) -> i8 {
    if v < 0x80 {
        v as i8
    } else {
        (v - 0x100) as i8
    }
}

/// The signed 32-bit integer at `at`.
pub open spec fn le_i32_at(s: Seq<u8>, at: int) -> i32 {
    signed_32(le_u32_at(s, at))
}

/// The unsigned 32-bit integer at `at`.
pub fn read_le_u32(data: &[u8], at: usize) -> (r: u32)
    requires
        at + 4 <= data@.len(),
    ensures
        r == le_u32_at(data@, at as int),
{
    data[at] as u32 + 0x100 * data[at + 1] as u32 + 0x1_0000 * data[at + 2] as u32 + 0x100_0000
        * data[at + 3] as u32
}

/// The unsigned 64-bit integer at `at`.
pub fn read_le_u64(data: &[u8], at: usize) -> (r: u64)
    requires
        at + 8 <= data@.len(),
    ensures
        r == le_u64_at(data@, at as int),
{
    assert(data.len() == data@.len());
    let low: u32 = read_le_u32(data, at);
    let high: u32 = read_le_u32(data, at + 4);
    low as u64 + 0x1_0000_0000 * high as u64
}

/// The two's-complement reading of a 32-bit pattern.
pub fn to_signed_32(v: u32) -> (r: i32)
    ensures
        r == signed_32(v),
{
    if v < 0x8000_0000 {
        v as i32
    } else {
        -((0xffff_ffff - v) as i32) - 1
    }
}

/// The two's-complement reading of a byte.
pub fn to_signed_8(v: u8) -> (r: i8)
    ensures
        r == signed_8(v),
{
    if v < 0x80 {
        v as i8
    } else {
        -((0xff - v) as i8) - 1
    }
}

/// The signed 32-bit integer at `at`.
pub fn read_le_i32(data: &[u8], at: usize) -> (r: i32)
    requires
        at + 4 <= data@.len(),
    ensures
        r == le_i32_at(data@, at as int),
{
    to_signed_32(read_le_u32(data, at))
}

/// The bytes of an integer stand in memory from the lowest to the highest: each is the
/// remainder of what is left of the integer once the lower ones are taken away.
pub proof fn integers_are_stored_lowest_byte_first(s: Seq<u8>, at: int)
    ensures
        le_u32_at(s, at) % 0x100 == s[at],
        le_u32_at(s, at) / 0x100 % 0x100 == s[at + 1],
        le_u32_at(s, at) / 0x1_0000 % 0x100 == s[at + 2],
        le_u32_at(s, at) / 0x100_0000 == s[at + 3],
        le_u64_at(s, at) % 0x1_0000_0000 == le_u32_at(s, at),
        le_u64_at(s, at) / 0x1_0000_0000 == le_u32_at(s, at + 4),
        (le_i32_at(s, at) - le_u32_at(s, at)) % 0x1_0000_0000 == 0,
{
}

/// A signed integer and the unsigned one of the same bits differ by a multiple of what the
/// bits can count.
pub proof fn signed_integers_have_the_same_bits(v: u32, b: u8)
    ensures
        (signed_32(v) - v) % 0x1_0000_0000 == 0,
        (signed_8(b) - b) % 0x100 == 0,
{
}

} // verus!
