//! Little-endian integer decoding from byte slices.

use vstd::prelude::*;

verus! {

/// The 16-bit little-endian integer at offset `i` of `s`.
pub open spec fn spec_le16(s: Seq<u8>, i: int) -> u16
    recommends
        0 <= i,
        i + 2 <= s.len(),
{
    (s[i] as u16 + s[i + 1] as u16 * 0x100) as u16
}

/// The 32-bit little-endian integer at offset `i` of `s`.
pub open spec fn spec_le32(s: Seq<u8>, i: int) -> u32
    recommends
        0 <= i,
        i + 4 <= s.len(),
{
    (s[i] as u32 + s[i + 1] as u32 * 0x100 + s[i + 2] as u32 * 0x1_0000 + s[i + 3] as u32
        * 0x100_0000) as u32
}

/// Reads the 16-bit little-endian integer at offset `at`.
pub fn le_u16(bytes: &[u8], at: usize) -> (r: u16)
    requires
        at + 2 <= bytes@.len(),
    ensures
        r == spec_le16(bytes@, at as int),
{
    let b0 = bytes[at];
    let b1 = bytes[at + 1];
    b0 as u16 + b1 as u16 * 0x100
}

/// Reads the 32-bit little-endian integer at offset `at`.
pub fn le_u32(bytes: &[u8], at: usize) -> (r: u32)
    requires
        at + 4 <= bytes@.len(),
    ensures
        r == spec_le32(bytes@, at as int),
{
    let b0 = bytes[at];
    let b1 = bytes[at + 1];
    let b2 = bytes[at + 2];
    let b3 = bytes[at + 3];
    b0 as u32 + b1 as u32 * 0x100 + b2 as u32 * 0x1_0000 + b3 as u32 * 0x100_0000
}

} // verus!
