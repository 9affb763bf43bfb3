//! Error taxonomy of the batch and wide-column layer.

use vstd::prelude::*;

verus! {

/// Every failure this layer can report.
///
/// - `OutOfRange`: an index access beyond a column set's length.
/// - `InvalidArgument`: malformed input rejected before encoding, such as an
///   entity upsert whose name and value counts differ.
/// - `Corrupt`: an encoded batch log could not be decoded.
#[derive(Clone, Copy, Debug, PartialEq, Eq, Structural)]
pub enum Error {
    OutOfRange,
    InvalidArgument,
    Corrupt,
}

} // verus!
