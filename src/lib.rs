//! Archiver for live adaptive-bitrate broadcasts whose manifest only lists a
//! short window of recent segments.
//!
//! The library holds the decisions: which past timestamps to probe and in what
//! order, how the shared archive state evolves, which live segments are still
//! missing, and how a fetched segment is accepted or rejected. Network, disk
//! and subprocess work is left to the caller, which feeds the results back.

pub mod error;
pub mod kind;
pub mod text;
pub mod trusted;

pub mod mpd;
pub mod offsets;
pub mod histogram;
pub mod state;
pub mod fetch;
pub mod pts;

pub mod backwards;
pub mod forwards;
pub mod merge;
pub mod download;
