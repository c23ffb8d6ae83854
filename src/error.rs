//! Failures of the index format.
use vstd::prelude::*;

verus! {

/// Why an index entry or an index file could not be encoded or decoded.
#[derive(Debug, Clone, Copy, PartialEq, Eq, Structural)]
pub enum IndexError {
    /// The file does not start with the four bytes `DIRC`.
    BadSignature,
    /// Fewer bytes remain than the header or a record needs.
    Truncated,
    /// The content hash is not 40 hexadecimal digits.
    BadHash,
    /// The name is longer than 0xFFF bytes, the most the flags can hold.
    NameTooLong,
    /// The name holds a zero byte, which a reader takes for its end.
    NameHasNul,
    /// The stage does not fit in two bits.
    BadStage,
    /// The stored name is not UTF-8.
    BadName,
    /// Bytes remain between the last counted record and the trailing digest.
    ExtraBytes,
    /// The entry count would exceed what the header can hold.
    TooManyEntries,
}

} // verus!
