//! Errors reported by the log.
use vstd::prelude::*;

verus! {

/// Why an operation on a log failed.
#[derive(Clone, Debug)]
pub enum Error {
    /// Stored bytes do not parse, or an entry does not match its checksum.
    /// Never repaired automatically.
    Corruption,
    /// An index function returned a key range outside the entry's bytes. A
    /// caller defect, not disk damage. When the entry is shorter than
    /// `SHORT_DATA_LEN` bytes its content is echoed in `data`.
    RangeOutOfBounds { start: u64, end: u64, data_len: u64, data: Option<Vec<u8>> },
    /// A `Remove` or `RemovePrefix` index output was used as a plain key.
    RemovalUsedAsKey,
    /// The log does not exist and `create` is off.
    NotFound,
    /// An in-memory log was asked to sync.
    InMemorySync,
    /// An index or fold id does not name a definition of the log.
    UnknownId,
    /// The primary log would outgrow the lengths it can record.
    TooLarge,
}

/// Entries shorter than this are echoed in `Error::RangeOutOfBounds`.
pub const SHORT_DATA_LEN: usize = 128;

impl Error {
    /// Whether this error signals damaged storage.
    pub fn is_corruption(&self) -> (r: bool)
        ensures
            r == (self is Corruption),
    {
        match self {
            Error::Corruption => true,
            _ => false,
        }
    }

    /// Whether this error signals a defect in the caller's definitions.
    pub fn is_programming(&self) -> (r: bool)
        ensures
            r == (self is RangeOutOfBounds || self is RemovalUsedAsKey),
    {
        match self {
            Error::RangeOutOfBounds { .. } => true,
            Error::RemovalUsedAsKey => true,
            _ => false,
        }
    }
}

} // verus!
