//! The failures that operations on bit regions report.

use vstd::prelude::*;

verus! {

/// Why an operation on a bit region was refused.
#[derive(Clone, Copy, Debug, PartialEq, Eq, Structural)]
pub enum Error {
    /// A pointer was asked for with a misaligned base, a head outside the
    /// element, or a length that the address space cannot hold.
    InvalidPointer,
    /// A sub-range reaches past the end of its region.
    OutOfBounds,
    /// A single bit was addressed at or past the end of its region.
    IndexOutOfRange,
}

} // verus!
