//! The error kinds that callers tell apart.

use vstd::prelude::*;

verus! {

/// Errors of the archiver.
#[derive(Debug, PartialEq, Eq)]
pub enum IgLiveError {
    /// A URL could not be joined, or has no path segment to name a file by.
    InvalidUrl,
    /// The server answered 404.
    StatusNotFound,
    /// The server answered with another status that is not a success.
    StatusError(u16, String),
    /// The transcoder exited with a failure.
    FfmpegFail,
    /// A past segment's end does not meet the oldest known segment's start.
    PtsTooEarly,
    /// A segment arrived before its stream's initialization blob.
    MissingInit,
}

} // verus!
