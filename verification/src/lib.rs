//! Verified core of an HLS playlist downloader.
//!
//! The library resolves a playlist into an ordered list of segment
//! references, derives the on-disk name of each retrieved segment, orders
//! downloaded segments by the numeric key embedded in their filenames, and
//! models the progress display of a long transfer.  All I/O (HTTP, the
//! filesystem, the clock) stays outside; the functions here work on plain
//! values and carry proved contracts.

pub mod cli;
pub mod playlist;
pub mod reassembly;
pub mod resolve;
pub mod tracker;
