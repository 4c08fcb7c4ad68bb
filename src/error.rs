use vstd::prelude::*;

verus! {

/// Why a whole file could not be read.
#[derive(Clone, Copy, Debug, PartialEq, Eq, Structural)]
pub enum FormatError {
    /// The file is shorter than its fixed header and trailer.
    Truncated,
    /// A signature is missing or damaged.
    BadSignature,
    /// The format version is not one this reader knows.
    UnsupportedVersion(u8),
    /// The body does not decompress, or its records do not fit the grid.
    CorruptBody,
}

/// Why one chunk could not be read; the rest of its region is unaffected.
#[derive(Clone, Copy, Debug, PartialEq, Eq, Structural)]
pub enum ChunkError {
    /// The compression tag names no known method.
    UnsupportedCompression(u8),
    /// The data does not decode with the method its tag names.
    CorruptPayload,
    /// The record's length or place does not fit the file.
    CorruptLength,
    /// The payload is stored in a sibling file that was not supplied.
    MissingExternal,
    /// The payload decodes to nothing.
    EmptyPayload,
    /// The payload does not fit a 32-bit length.
    OversizedPayload,
}

} // verus!
