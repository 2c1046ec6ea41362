use vstd::prelude::*;

verus! {

/// Why a byte buffer is not a well-formed archive, or a payload not a
/// well-formed zlib member.
#[derive(Debug, Clone, Copy, PartialEq, Eq, Structural)]
pub enum FormatError {
    /// The buffer does not start with the `PMAN` tag.
    BadMagic,
    /// The copyright field lacks its null terminator, or does not fit the
    /// field once decoded.
    UnterminatedCopyright,
    /// The buffer is shorter than the header or the entry table.
    TruncatedInput,
    /// A reserved field of the entry table is not zero.
    UnexpectedNonZeroField,
    /// An entry starts before the end of the entry that precedes it.
    OverlappingEntries,
    /// The payload region ends before the end of an entry.
    TruncatedPayload,
    /// A zlib member does not inflate to exactly its declared size.
    TruncatedZlib,
}

/// A caller asked for a state that an archive cannot hold.
#[derive(Debug, Clone, Copy, PartialEq, Eq, Structural)]
pub enum ContractError {
    /// The copyright notice is longer than the 55 bytes of its field.
    CopyrightTooLong,
}

/// A decode failure, with its kind.
#[derive(Debug, Clone, Copy, PartialEq, Eq, Structural)]
pub struct InvalidFormatError {
    pub kind: FormatError,
}

/// Failures of the archive codec.
#[derive(Debug, Clone, Copy, PartialEq, Eq, Structural)]
pub enum Error {
    /// The input is not a well-formed archive.
    InvalidFormat(InvalidFormatError),
    /// The archive would not fit in the 32-bit offsets of its entry table.
    ArchiveTooLarge,
}

} // verus!
