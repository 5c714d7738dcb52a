//! Why a request is turned down.

use vstd::prelude::*;

verus! {

/// The reasons for which packing or unpacking is refused.
#[derive(Debug, Clone, Copy, PartialEq, Eq, Structural)]
pub enum CodecError {
    /// The requested bit width is zero, or too large for the integer type:
    /// packing asks for a width below the type's own, unpacking for one that
    /// does not exceed it.
    InvalidWidth,
}

} // verus!
