use vstd::prelude::*;

verus! {

/// Why a feed or one of its entries could not be turned into records.
#[derive(Clone, Copy, PartialEq, Eq, Structural, Debug)]
pub enum ParseError {
    /// The bytes are not a well-formed feed document.
    Malformed,
    /// A `published` or `updated` field is not a valid RFC 3339 timestamp.
    BadTimestamp,
    /// The canonical identifier extracted from an entry is empty.
    MissingId,
    /// A required child element or attribute of an entry is absent.
    MissingField,
    /// A text field is not valid UTF-8.
    BadEncoding,
}

/// Why a client operation failed.
#[derive(Clone, Copy, PartialEq, Eq, Structural, Debug)]
pub enum ApiError {
    /// Transport failure or a non-2xx HTTP status (the status is carried;
    /// 0 stands for a transport error that produced no status at all).
    NetworkError(u16),
    /// The response body could not be parsed as a feed.
    ParseFailed(ParseError),
    /// A lookup of a single record returned zero entries.
    NotFoundError,
}

/// Why restoring a cache from persisted bytes failed.
#[derive(Clone, Copy, PartialEq, Eq, Structural, Debug)]
pub enum CacheError {
    /// The persisted bytes are not a well-formed table.
    Malformed,
}

} // verus!
