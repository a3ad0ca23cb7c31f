//! Options of a download run.

use std::path::PathBuf;
use vstd::prelude::*;

verus! {

/// Which segments a run downloads: the live ones, the past ones, or both.
#[derive(PartialEq, Eq, Structural, Clone, Copy, Debug)]
pub struct DownloadSegments {
    live: bool,
    past: bool,
}

impl DownloadSegments {
    pub closed spec fn has_live(&self) -> bool {
        self.live
    }

    pub closed spec fn has_past(&self) -> bool {
        self.past
    }

    /// The live segments only.
    pub fn live() -> (r: DownloadSegments)
        ensures
            r.has_live() && !r.has_past(),
    {
        DownloadSegments { live: true, past: false }
    }

    /// The past segments only.
    pub fn past() -> (r: DownloadSegments)
        ensures
            !r.has_live() && r.has_past(),
    {
        DownloadSegments { live: false, past: true }
    }

    /// Both kinds of segments.
    pub fn all() -> (r: DownloadSegments)
        ensures
            r.has_live() && r.has_past(),
    {
        DownloadSegments { live: true, past: true }
    }

    /// Whether every kind in `other` is in `self`.
    pub fn contains(&self, other: DownloadSegments) -> (r: bool)
        ensures
            r == ((other.has_live() ==> self.has_live()) && (other.has_past() ==> self.has_past())),
    {
        (!other.live || self.live) && (!other.past || self.past)
    }
}

/// Options for a download.
#[derive(Debug)]
pub struct DownloadConfig {
    /// Directory to place the download in; `None` names it after the
    /// broadcast's id.
    pub dir: Option<PathBuf>,
    /// Which segments to download.
    pub segments: DownloadSegments,
}

} // verus!
