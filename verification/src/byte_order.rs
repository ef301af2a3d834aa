//! Big-endian byte-group conversions.
//!
//! Pure, stateless helpers that assemble unsigned and signed integers of
//! fixed width from big-endian byte sequences.  Callers guarantee that the
//! input holds enough bytes, so there are no error paths.

use vstd::prelude::*;

verus! {

/// The unsigned 32-bit value that four big-endian bytes denote.
pub open spec fn spec_u32_be(b0: u8, b1: u8, b2: u8, b3: u8) -> int {
    b0 * 0x1000000 + b1 * 0x10000 + b2 * 0x100 + b3
}

/// The unsigned 16-bit value that two big-endian bytes denote.
pub open spec fn spec_u16_be(b0: u8, b1: u8) -> int {
    b0 * 0x100 + b1
}

/// The signed 16-bit value that two big-endian bytes denote
/// (two's complement).
pub open spec fn spec_i16_be(b0: u8, b1: u8) -> int {
    if spec_u16_be(b0, b1) < 0x8000 {
        spec_u16_be(b0, b1)
    } else {
        spec_u16_be(b0, b1) - 0x10000
    }
}

/// Assembles an unsigned 32-bit value from four big-endian bytes.
pub fn u32_from_be_bytes(bytes: [u8; 4]) -> (r: u32)
    ensures
        r == spec_u32_be(bytes[0], bytes[1], bytes[2], bytes[3]),
{
    (bytes[0] as u32) * 0x1000000 + (bytes[1] as u32) * 0x10000 + (bytes[2] as u32) * 0x100
        + (bytes[3] as u32)
}

/// Assembles an unsigned 16-bit value from two big-endian bytes.
pub fn u16_from_be_bytes(bytes: [u8; 2]) -> (r: u16)
    ensures
        r == spec_u16_be(bytes[0], bytes[1]),
{
    (bytes[0] as u16) * 0x100 + (bytes[1] as u16)
}

/// Assembles a signed 16-bit value from two big-endian bytes
/// (two's complement).
pub fn i16_from_be_bytes(bytes: [u8; 2]) -> (r: i16)
    ensures
        r == spec_i16_be(bytes[0], bytes[1]),
{
    let v: u16 = u16_from_be_bytes(bytes);
    if v < 0x8000 {
        v as i16
    } else {
        ((v as i32) - 0x10000) as i16
    }
}

} // verus!
