//! Failure taxonomy of a subsetting session.
//!
//! Any malformed input aborts the whole session: there is no partial-success
//! mode. Duplicate-slot requests are the sole recoverable case and are
//! handled locally by the registry, so `UsageError` never escapes a session.
use vstd::prelude::*;

verus! {

/// A fatal failure of a subsetting session.
#[derive(Clone, Copy, Debug, PartialEq, Eq, Structural)]
pub enum SubsetError {
    /// Malformed or unsupported table shape: unexpected metric-data format,
    /// unknown `loca` format, undersized or truncated glyph record.
    FormatError,
    /// A glyph index outside the source font's declared glyph count, or a
    /// registry overflow beyond the reserved new-glyph-id ceiling.
    RangeError,
    /// No free new-glyph-id slot is available.
    ResourceError,
    /// An invalid request against the session's current state.
    UsageError,
}

impl SubsetError {
    /// A short human-readable name of the error.
    pub fn name(&self) -> (r: &'static str)
        ensures
            r@ =~= match self {
                SubsetError::FormatError => "format error"@,
                SubsetError::RangeError => "range error"@,
                SubsetError::ResourceError => "resource error"@,
                SubsetError::UsageError => "usage error"@,
            },
    {
        match self {
            SubsetError::FormatError => "format error",
            SubsetError::RangeError => "range error",
            SubsetError::ResourceError => "resource error",
            SubsetError::UsageError => "usage error",
        }
    }
}

} // verus!
