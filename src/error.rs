use vstd::prelude::*;

verus! {

/// Why an archive could not be read, built or extracted from.
#[derive(Debug, Clone, Copy, PartialEq, Eq, Structural)]
pub enum ArchiveError {
    /// The bytes end before a field that the layout announces.
    Truncated,
    /// A stored name is not valid UTF-8.
    InvalidUtf8,
    /// A record points past the end of the name table.
    NameIndexOutOfRange,
    /// No entry has the requested internal path.
    NotFound,
    /// The extraction destination exists and is not a directory.
    InvalidInput,
    /// A name is longer than its 16-bit length prefix can say.
    NameTooLong,
    /// More entries than a 32-bit count can hold.
    TooManyFiles,
    /// An offset or the archive's length does not fit in 32 bits.
    ArchiveTooLarge,
}

} // verus!
