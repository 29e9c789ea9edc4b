//! The decisions materialization is built on. Writing files and spawning
//! processes are the embedding program's job; it drives them by these
//! verified rules: when a target may be written, which failures abort a
//! batch, and what a finished command's exit means.

use vstd::prelude::*;

use crate::error::GeenieError;

verus! {

/// What to do with one target file: write it, or leave it untouched because
/// it already exists and overwriting was not forced.
#[derive(Debug, PartialEq, Eq, Structural)]
pub enum WriteStep {
    /// Write the file, creating parent directories as needed.
    Write,
    /// Leave the file on disk untouched; the conflict is non-fatal and the
    /// remaining files of the batch are still written.
    Skip,
}

/// The overwrite policy: a file is written unless it already exists on disk
/// and `force` is off.
pub fn write_decision(already_there: bool, force: bool) -> (step: WriteStep)
    ensures
        step == WriteStep::Write <==> (force || !already_there),
        step == WriteStep::Skip <==> (already_there && !force),
{
    if already_there && !force {
        WriteStep::Skip
    } else {
        WriteStep::Write
    }
}

/// Whether a failure while writing one file aborts the whole
/// materialization: only a real I/O failure does. An `Exists` conflict is
/// absorbed and the remaining files are still written.
pub fn failure_aborts(e: &GeenieError) -> (aborts: bool)
    ensures
        aborts == (e is Io),
{
    e.is_io()
}

/// What a finished command means: success when it exited zero, otherwise a
/// `Process` error carrying its error output — which aborts every command
/// still queued behind it.
pub fn command_outcome(exited_zero: bool, stderr: String) -> (r: Result<(), GeenieError>)
    ensures
        exited_zero <==> r is Ok,
        !exited_zero ==> (r matches Err(e) && e matches GeenieError::Process { error } && error
            == stderr),
{
    if exited_zero {
        Ok(())
    } else {
        Err(GeenieError::command(stderr))
    }
}

/// How many files are written concurrently within one batch; batches run one
/// after another.
pub const WRITE_BATCH: usize = 10;

} // verus!
