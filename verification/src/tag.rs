//! Attribute tags: a pair of 16-bit group/element identifiers.

use vstd::prelude::*;

use crate::byte_parser::{le_u16, spec_le16};

verus! {

/// Identifies one data element: ordered pair (group, element).
/// Ordering over tags is lexicographic by group, then element, ascending.
#[derive(Clone, Copy, Debug, PartialEq, Eq, Structural, Hash)]
pub struct Tag {
    pub group: u16,
    pub element: u16,
}

/// Lexicographic order on tags: by group, then element, ascending.
pub open spec fn tag_precedes(a: Tag, b: Tag) -> bool {
    a.group < b.group || (a.group == b.group && a.element < b.element)
}

impl Tag {
    pub fn new(group: u16, element: u16) -> (t: Tag)
        ensures
            t == (Tag { group, element }),
    {
        Tag { group, element }
    }

    /// Decodes a tag from the first four bytes, little-endian:
    /// group from bytes 0..2, element from bytes 2..4.
    pub fn from_bytes(bytes: &[u8]) -> (t: Tag)
        requires
            bytes@.len() >= 4,
        ensures
            t == spec_tag_from(bytes@),
    {
        Tag { group: le_u16(bytes, 0), element: le_u16(bytes, 2) }
    }

    /// True exactly when `self` comes strictly before `other` in
    /// (group, element) order.
    pub fn precedes(&self, other: &Tag) -> (r: bool)
        ensures
            r == tag_precedes(*self, *other),
    {
        self.group < other.group || (self.group == other.group && self.element < other.element)
    }
}

/// The tag encoded in the first four bytes of a record, little-endian.
pub open spec fn spec_tag_from(s: Seq<u8>) -> Tag
    recommends
        s.len() >= 4,
{
    Tag { group: spec_le16(s, 0), element: spec_le16(s, 2) }
}

} // verus!
