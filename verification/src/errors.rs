//! Error categories surfaced by the storage engine.

use vstd::prelude::*;

verus! {

/// Failure kinds of the engine's fallible operations.
#[derive(Clone, Copy, PartialEq, Eq, Structural, Debug)]
pub enum EngineError {
    /// Disk read or write failure; surfaced to the caller, never retried here.
    Io,
    /// A corrupt on-disk value failed to deserialize.
    Deserialize,
    /// An attempt to write to a frozen in-memory layer.
    Writable,
    /// GC-compaction ran without a required ancestor base image.
    IncompleteHistory,
    /// Cooperative cancellation was observed; the caller rolls back.
    ShuttingDown,
    /// A new layer is equivalent to one already present in the same
    /// generation; the write is skipped and the original kept.
    DuplicateLayer,
}

impl EngineError {
    /// A short name for the error, for callers that need to display it.
    pub fn as_str(&self) -> (r: &'static str)
    {
        match self {
            EngineError::Io => "io error",
            EngineError::Deserialize => "deserialize error",
            EngineError::Writable => "layer is not writable",
            EngineError::IncompleteHistory => "invalid history, no base image",
            EngineError::ShuttingDown => "shutting down",
            EngineError::DuplicateLayer => "duplicate layer",
        }
    }
}

} // verus!
