//! Decoding of one attribute header under the two encoding variants.
//!
//! Under explicit encoding the two-byte value-representation code follows the
//! tag; the codes `OB`, `OW`, `SQ`, `OF`, `UT`, `UN` use two reserved bytes
//! plus a 32-bit length (payload at offset 12), every other code a 16-bit
//! length (payload at offset 8). Under implicit encoding the length is always
//! 32 bits and the value representation is unknown to the decoder.

use vstd::prelude::*;

use crate::byte_parser::{le_u16, le_u32, spec_le16, spec_le32};
use crate::tag::{spec_tag_from, Tag};

verus! {

// ASCII bytes of the value-representation code letters used below.
pub const CH_B: u8 = 0x42;
pub const CH_F: u8 = 0x46;
pub const CH_N: u8 = 0x4E;
pub const CH_O: u8 = 0x4F;
pub const CH_Q: u8 = 0x51;
pub const CH_S: u8 = 0x53;
pub const CH_T: u8 = 0x54;
pub const CH_U: u8 = 0x55;
pub const CH_W: u8 = 0x57;

/// One decoded record header: tag, value-representation code, payload byte
/// count, and the offset at which the payload starts.
///
/// As produced by `ele` / `ile`, `data_position` is the offset of the payload
/// within the given window (8 or 12); the data-set drivers rebase it to an
/// absolute offset from the start of the logical stream.
#[derive(Clone, Copy, Debug)]
pub struct Attribute {
    pub tag: Tag,
    pub vr: [u8; 2],
    pub length: usize,
    pub data_position: usize,
}

/// True for the value-representation codes whose headers carry a 32-bit
/// length field: `OB`, `OW`, `SQ`, `OF`, `UT`, `UN`. Every other two-byte
/// code, well-formed or not, takes the 16-bit branch.
pub open spec fn spec_length_is_u32(v0: u8, v1: u8) -> bool {
    (v0 == CH_O && v1 == CH_B) || (v0 == CH_O && v1 == CH_W) || (v0 == CH_S && v1 == CH_Q) || (v0
        == CH_O && v1 == CH_F) || (v0 == CH_U && v1 == CH_T) || (v0 == CH_U && v1 == CH_N)
}

/// Whether the value-representation code starting at `bytes[0]` selects the
/// 32-bit length branch of an explicit header.
pub fn length_is_u32(bytes: &[u8]) -> (r: bool)
    requires
        bytes@.len() >= 2,
    ensures
        r == spec_length_is_u32(bytes@[0], bytes@[1]),
{
    let b0 = bytes[0];
    let b1 = bytes[1];
    (b0 == CH_O && b1 == CH_B) || (b0 == CH_O && b1 == CH_W) || (b0 == CH_S && b1 == CH_Q) || (b0
        == CH_O && b1 == CH_F) || (b0 == CH_U && b1 == CH_T) || (b0 == CH_U && b1 == CH_N)
}

/// Byte length of the explicit-encoding header at the start of `s`:
/// 12 for a 32-bit-length code, 8 otherwise.
pub open spec fn spec_ele_header_len(s: Seq<u8>) -> int
    recommends
        s.len() >= 6,
{
    if spec_length_is_u32(s[4], s[5]) {
        12
    } else {
        8
    }
}

/// The header decoded from the start of `s` under explicit encoding.
pub open spec fn spec_ele(s: Seq<u8>) -> Attribute
    recommends
        s.len() >= spec_ele_header_len(s),
{
    if spec_length_is_u32(s[4], s[5]) {
        Attribute {
            tag: spec_tag_from(s),
            vr: [s[4], s[5]],
            length: spec_le32(s, 8) as usize,
            data_position: 12,
        }
    } else {
        Attribute {
            tag: spec_tag_from(s),
            vr: [s[4], s[5]],
            length: spec_le16(s, 6) as usize,
            data_position: 8,
        }
    }
}

/// The header decoded from the start of `s` under implicit encoding: always
/// an 8-byte header with a 32-bit length; the value representation is not in
/// the stream and is recorded as the sentinel `UN`.
pub open spec fn spec_ile(s: Seq<u8>) -> Attribute
    recommends
        s.len() >= 8,
{
    Attribute {
        tag: spec_tag_from(s),
        vr: [CH_U, CH_N],
        length: spec_le32(s, 4) as usize,
        data_position: 8,
    }
}

impl Attribute {
    /// Decodes one explicit-encoding header from the start of `bytes`.
    /// The window must cover the whole header: 8 bytes, or 12 when the
    /// value-representation code selects the 32-bit length branch.
    pub fn ele(bytes: &[u8]) -> (attr: Attribute)
        requires
            bytes@.len() >= 8,
            spec_length_is_u32(bytes@[4], bytes@[5]) ==> bytes@.len() >= 12,
        ensures
            attr == spec_ele(bytes@),
            attr.data_position == spec_ele_header_len(bytes@),
    {
        let v0 = bytes[4];
        let v1 = bytes[5];
        let tag = Tag::from_bytes(bytes);
        if (v0 == CH_O && v1 == CH_B) || (v0 == CH_O && v1 == CH_W) || (v0 == CH_S && v1 == CH_Q)
            || (v0 == CH_O && v1 == CH_F) || (v0 == CH_U && v1 == CH_T) || (v0 == CH_U && v1
            == CH_N) {
            Attribute { tag, vr: [v0, v1], length: le_u32(bytes, 8) as usize, data_position: 12 }
        } else {
            Attribute { tag, vr: [v0, v1], length: le_u16(bytes, 6) as usize, data_position: 8 }
        }
    }

    /// Decodes one implicit-encoding header from the start of `bytes`.
    pub fn ile(bytes: &[u8]) -> (attr: Attribute)
        requires
            bytes@.len() >= 8,
        ensures
            attr == spec_ile(bytes@),
            attr.data_position == 8,
    {
        Attribute {
            tag: Tag::from_bytes(bytes),
            vr: [CH_U, CH_N],
            length: le_u32(bytes, 4) as usize,
            data_position: 8,
        }
    }
}

} // verus!
