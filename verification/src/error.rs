//! The ways in which a download can fail.

use vstd::prelude::*;

verus! {

/// Why the job of one resource failed.
#[derive(Debug, Clone, Copy, PartialEq, Eq, Structural)]
pub enum DownloadError {
    /// The metadata probe did not complete, so no plan could be made.
    MetadataProbeFailed,
    /// The request for a chunk did not complete.
    TransportError,
    /// A chunk's payload does not have the length of the range that was asked for.
    SizeMismatch { expected: usize, got: usize },
    /// Creating, seeking, writing or syncing the output file failed.
    IOError,
    /// After all writes the file does not have the size that the probe reported.
    IncompleteDownload { expected: usize, on_disk: u64 },
    /// The chunks at hand do not cover the resource exactly, or one of them
    /// has no payload.
    IncompleteChunks,
}

/// The failure of a batch: the first task, in the order in which the tasks
/// were given, whose job failed, and the reason.
#[derive(Debug, Clone, Copy, PartialEq, Eq, Structural)]
pub struct AggregateError {
    pub task: usize,
    pub error: DownloadError,
}

} // verus!
