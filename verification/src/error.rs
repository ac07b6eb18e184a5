//! Closed error taxonomy for the editing pipeline.

use vstd::prelude::*;

verus! {

/// What went wrong during an editing operation.
///
/// Callers branch on the kind: a `NoKeyframeInRange` means "skip this
/// interval and keep going", while a `WriteError` or `NoSegmentsProduced`
/// aborts the whole operation.
#[derive(Clone, Copy, PartialEq, Eq, Structural, Debug)]
pub enum EditError {
    /// The input container or a compressed stream could not be read.
    DecodeError,
    /// No usable video content fell inside the requested range.
    NoKeyframeInRange,
    /// Silence removal kept nothing, so no output may be produced.
    NoSegmentsProduced,
    /// Writing a header, packet or trailer failed part-way.
    WriteError,
    /// An audio sample format without a decoding rule was encountered.
    UnsupportedFormat,
}

} // verus!
