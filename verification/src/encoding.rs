//! The encoding capability: which header variant is active for a parse
//! session. Selected once before a driver starts and immutable for the
//! session's duration. All variants covered here are little-endian.

use vstd::prelude::*;

verus! {

/// A marker type stating which header variant a data-set parse uses.
pub trait Encoding {
    /// Whether headers carry an explicit value-representation code.
    spec fn is_explicit() -> bool;

    /// Executable mirror of `is_explicit`.
    fn explicit() -> (b: bool)
        ensures
            b == Self::is_explicit(),
    ;
}

/// Explicit value representation, little-endian byte order.
pub struct ExplicitLittleEndian;

impl Encoding for ExplicitLittleEndian {
    open spec fn is_explicit() -> bool {
        true
    }

    fn explicit() -> bool {
        true
    }
}

/// Implicit value representation, little-endian byte order.
pub struct ImplicitLittleEndian;

impl Encoding for ImplicitLittleEndian {
    open spec fn is_explicit() -> bool {
        false
    }

    fn explicit() -> bool {
        false
    }
}

} // verus!
