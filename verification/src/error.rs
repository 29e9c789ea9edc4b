//! The engine's error taxonomy: registration-time duplicates, materialization
//! conflicts, command failures, backend failures, and plain I/O failures.

use vstd::prelude::*;

verus! {

/// Everything that can go wrong while expanding a tree or materializing its
/// artifact. `Duplicate` aborts a run at registration time; `Exists` marks a
/// materialization conflict that is deliberately non-fatal; `Process` is a
/// command that exited non-zero; `Backend` wraps a failure of the interactive
/// backend; `Io` is a fatal file-system failure; `Taken` is a question kind
/// that was asked a second time.
#[derive(Debug)]
pub enum GeenieError {
    /// An underlying file-system failure; always fatal.
    Io { message: String },
    /// Two files registered under the same final path.
    Duplicate { path: Vec<u8> },
    /// Materialization found the file already on disk and `force` was off.
    Exists { path: Vec<u8> },
    /// A command exited non-zero; holds its error output.
    Process { error: String },
    /// The interactive backend failed or was interrupted.
    Backend { message: String },
    /// A one-shot question kind was asked again after being consumed.
    Taken,
}

impl GeenieError {
    /// True exactly for the fatal file-system variant, which materialization
    /// must not swallow.
    pub fn is_io(&self) -> (io: bool)
        ensures
            io == (self is Io),
    {
        match self {
            GeenieError::Io { .. } => true,
            _ => false,
        }
    }

    /// The error for a second file registered under `path`.
    pub fn duplicate(path: Vec<u8>) -> (e: GeenieError)
        ensures
            e matches GeenieError::Duplicate { path: p } && p@ == path@,
    {
        GeenieError::Duplicate { path }
    }

    /// The error for a materialization target already present at `path`.
    pub fn already_exists(path: Vec<u8>) -> (e: GeenieError)
        ensures
            e matches GeenieError::Exists { path: p } && p@ == path@,
    {
        GeenieError::Exists { path }
    }

    /// The error for a command that exited non-zero with output `error`.
    pub fn command(error: String) -> (e: GeenieError)
        ensures
            e matches GeenieError::Process { error: s } && s == error,
    {
        GeenieError::Process { error }
    }

    /// The error wrapping a failure of the interactive backend.
    pub fn backend(message: String) -> (e: GeenieError)
        ensures
            e matches GeenieError::Backend { message: m } && m == message,
    {
        GeenieError::Backend { message }
    }
}

} // verus!
