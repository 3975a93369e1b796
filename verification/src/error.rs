//! The crate's error type. Errors carry plain values only, so callers can
//! match on them without help from any other crate.

use vstd::prelude::*;

verus! {

pub type CaverResult<T> = Result<T, CaverError>;

/// Every failure the library surfaces to a caller.
#[derive(Debug, Clone)]
pub enum CaverError {
    /// A mount point could not be rendered as text.
    UnableToConvertPathToString(String),
    /// An operating-system read or write failed.
    IOError,
    /// A persisted snapshot was absent, truncated, or malformed.
    DeserializeError,
    /// The process lacks the privilege to read raw volume records.
    ElevationError,
    /// Query text violates the query grammar.
    ParseError,
    Unknown,
}

} // verus!
