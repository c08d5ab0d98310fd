//! Big-endian numbers and signatures in a profile.
use crate::number::Fixed;
use vstd::prelude::*;

verus! {

/// The big-endian 16-bit number at an offset.
pub open spec fn u16_at(bytes: Seq<u8>, offset: int) -> int {
    bytes[offset] * 0x100 + bytes[offset + 1]
}

/// The big-endian 32-bit number at an offset.
pub open spec fn u32_at(bytes: Seq<u8>, offset: int) -> int {
    u16_at(bytes, offset) * 0x1_0000 + u16_at(bytes, offset + 2)
}

/// The big-endian two's complement 32-bit number at an offset.
pub open spec fn i32_at(bytes: Seq<u8>, offset: int) -> int {
    let unsigned: int = u32_at(bytes, offset);
    if unsigned < 0x8000_0000 {
        unsigned
    } else {
        unsigned - 0x1_0000_0000
    }
}

/// The s15Fixed16Number at an offset.
pub open spec fn fixed_at(bytes: Seq<u8>, offset: int) -> Fixed {
    Fixed(i32_at(bytes, offset) as i32)
}

/// The four bytes at an offset.
pub open spec fn signature_at(bytes: Seq<u8>, offset: int) -> [u8; 4] {
    [bytes[offset], bytes[offset + 1], bytes[offset + 2], bytes[offset + 3]]
}

/// Reads a big-endian 16-bit number.
pub fn be_u16(bytes: &[u8], offset: usize) -> (value: u16)
    requires
        offset + 2 <= bytes@.len(),
    ensures
        value == u16_at(bytes@, offset as int),
{
    bytes[offset] as u16 * 0x100 + bytes[offset + 1] as u16
}

/// Reads a big-endian 32-bit number.
pub fn be_u32(bytes: &[u8], offset: usize) -> (value: u32)
    requires
        offset + 4 <= bytes@.len(),
    ensures
        value == u32_at(bytes@, offset as int),
{
    assert(bytes.len() == bytes@.len());
    be_u16(bytes, offset) as u32 * 0x1_0000 + be_u16(bytes, offset + 2) as u32
}

/// ICC s15Fixed16Number.
pub fn s15f16(bytes: &[u8], offset: usize) -> (value: Fixed)
    requires
        offset + 4 <= bytes@.len(),
    ensures
        value.0 == i32_at(bytes@, offset as int),
        value == fixed_at(bytes@, offset as int),
{
    let unsigned: u32 = be_u32(bytes, offset);
    if unsigned < 0x8000_0000 {
        Fixed(unsigned as i32)
    } else {
        Fixed((unsigned as i64 - 0x1_0000_0000) as i32)
    }
}

/// Reads a signature.
pub fn signature(bytes: &[u8], offset: usize) -> (value: [u8; 4])
    requires
        offset + 4 <= bytes@.len(),
    ensures
        value == signature_at(bytes@, offset as int),
{
    [bytes[offset], bytes[offset + 1], bytes[offset + 2], bytes[offset + 3]]
}

/// Whether two signatures are the same.
pub fn same_signature(a: &[u8; 4], b: &[u8; 4]) -> (same: bool)
    ensures
        same == (a == b),
{
    let same: bool = a[0] == b[0] && a[1] == b[1] && a[2] == b[2] && a[3] == b[3];
    proof {
        if same {
            assert(*a =~= *b);
        }
    }
    same
}

} // verus!
