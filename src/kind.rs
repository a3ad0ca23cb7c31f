//! The media streams of a broadcast.

use vstd::prelude::*;

verus! {

/// Kind of a representation, read from its MIME type.
#[derive(PartialEq, Eq, Structural, Hash, Clone, Copy, Debug)]
pub enum MediaType {
    Video,
    Audio,
    Unknown,
}

/// The two kinds that the archive keeps state for.
pub open spec fn is_stream(kind: MediaType) -> bool {
    kind is Video || kind is Audio
}

} // verus!
