//! The error kinds that the library reports.

use vstd::prelude::*;

verus! {

/// Why an operation of the library failed.
#[derive(Debug, Clone, Copy, PartialEq, Eq, Structural)]
pub enum BGZFError {
    /// The compressor or a stream below the library reported a failure.
    Io,
    /// A block has a bad magic number, lacks the `BC` subfield, is cut short,
    /// or its checksum or size disagrees with the decoded payload.
    MalformedBlock,
    /// The index does not start with the Tabix magic number.
    NotTabix,
    /// The index ends before everything that its header announces was read.
    Truncated,
    /// A reference id is unknown, or a position lies past the linear index.
    OutOfIndex,
    /// The offset inside the block of a virtual file offset is not below the
    /// size of that block.
    InvalidVFO,
    /// A coordinate field of a record is not a decimal number.
    ParseRecord,
    /// The index asks for SAM-mode scanning, which is not offered.
    Unsupported,
}

} // verus!
