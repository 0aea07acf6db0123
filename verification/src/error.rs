//! Why the processing of a file is given up.

use vstd::prelude::*;

verus! {

/// A failure that ends the processing of a file. Neither kind is ever
/// turned into a count of zero.
#[derive(Clone, Copy, Debug, PartialEq, Eq, Structural)]
pub enum ProcessError {
    /// The file could not be read, or held no frame at all.
    Decode,
    /// A frame does not have the three-channel, eight-bit layout that the
    /// colour rule works on.
    Conversion,
}

} // verus!
