//! The run-scoped accumulator enforcing the global unique-path invariant, and
//! the immutable artifact a finished run hands back.

use vstd::prelude::*;

use crate::error::GeenieError;
use crate::file::File;
use crate::file::FileList;
use crate::file::SpecFile;
use crate::file::paths_distinct;
use crate::file::views_of;
use crate::process::CommandList;
use crate::process::Process;
use crate::question::Qa;

verus! {

/// Whether some file in the sequence carries the path `path`.
pub open spec fn has_path(files: Seq<SpecFile>, path: Seq<u8>) -> bool {
    exists|i: int| 0 <= i < files.len() && #[trigger] files[i].path == path
}

/// The mutable, run-scoped store of registered files and queued commands.
/// It is the single point where the global duplicate-path invariant is
/// enforced: a file whose path was already registered is refused, whatever
/// branch or depth produced it.
pub struct ResultBuilder {
    /// The registered files, in registration order, with pairwise-distinct
    /// paths.
    pub files: Vec<File>,
    /// The queued commands, in registration order.
    pub commands: Vec<Process>,
}

impl Default for ResultBuilder {
    /// An empty accumulator.
    fn default() -> (builder: ResultBuilder)
        ensures
            builder.files@ == Seq::<File>::empty(),
            builder.commands@ == Seq::<Process>::empty(),
    {
        ResultBuilder { files: Vec::new(), commands: Vec::new() }
    }
}

impl ResultBuilder {
    /// The views of the registered files, in order.
    pub open spec fn file_views(self) -> Seq<SpecFile> {
        views_of(self.files@)
    }

    /// The accumulator's invariant: registered paths are pairwise distinct.
    pub open spec fn inv(self) -> bool {
        paths_distinct(self.file_views())
    }

    /// An empty accumulator.
    pub fn new() -> (builder: ResultBuilder)
        ensures
            builder.files@ == Seq::<File>::empty(),
            builder.commands@ == Seq::<Process>::empty(),
    {
        ResultBuilder { files: Vec::new(), commands: Vec::new() }
    }

    /// Whether a file with this path was already registered.
    pub fn contains_path(&self, path: &Vec<u8>) -> (found: bool)
        ensures
            found == has_path(self.file_views(), path@),
    {
        let mut i: usize = 0;
        while i < self.files.len()
            invariant
                i <= self.files@.len(),
                forall|j: int| 0 <= j < i ==> #[trigger] self.file_views()[j].path != path@,
            decreases self.files@.len() - i,
        {
            if eq_bytes(&self.files[i].path, path) {
                assert(self.file_views()[i as int].path == path@);
                return true;
            }
            i = i + 1;
        }
        false
    }

    /// Registers a file. Succeeds and appends it when its path is new;
    /// refuses it with `Duplicate` and leaves the store untouched when the
    /// path was already registered.
    pub fn push_file(&mut self, file: File) -> (r: Result<(), GeenieError>)
        requires
            old(self).inv(),
        ensures
            final(self).inv(),
            final(self).commands@ == old(self).commands@,
            !has_path(old(self).file_views(), file@.path) ==> r is Ok && final(self).files@
                == old(self).files@.push(file),
            has_path(old(self).file_views(), file@.path) ==> (r matches Err(e) && (
            e matches GeenieError::Duplicate { path } && path@ == file@.path)) && *final(self)
                == *old(self),
    {
        if self.contains_path(&file.path) {
            return Err(GeenieError::duplicate(file.path));
        }
        let ghost before = self.file_views();
        let ghost added = file@;
        self.files.push(file);
        proof {
            assert(self.file_views() =~= before.push(added));
            assert forall|i: int, j: int|
                0 <= i < j < self.file_views().len() implies #[trigger] self.file_views()[i].path
                != #[trigger] self.file_views()[j].path by {
                if j == self.file_views().len() - 1 {
                    assert(!has_path(before, added.path));
                    assert(before[i].path != added.path);
                }
            }
        }
        Ok(())
    }

    /// Queues a command; always succeeds, order is preserved.
    pub fn push_command(&mut self, command: Process)
        ensures
            final(self).files@ == old(self).files@,
            final(self).commands@ == old(self).commands@.push(command),
    {
        self.commands.push(command);
    }

    /// Consumes the accumulator into the immutable artifact, pairing it with
    /// the environment handle and the question log, and preserving the
    /// registration order of files and commands.
    pub fn build<E>(self, env: E, answers: Vec<Qa>) -> (result: GeenieResult<E>)
        ensures
            result.files.files@ == self.files@,
            result.commands.commands@ == self.commands@,
            result.answers@ == answers@,
    {
        GeenieResult {
            env,
            files: FileList { files: self.files },
            commands: CommandList { commands: self.commands },
            answers,
        }
    }
}

/// Compares two byte strings for equality.
pub fn eq_bytes(a: &Vec<u8>, b: &Vec<u8>) -> (equal: bool)
    ensures
        equal == (a@ == b@),
{
    if a.len() != b.len() {
        return false;
    }
    let mut i: usize = 0;
    while i < a.len()
        invariant
            i <= a@.len(),
            a@.len() == b@.len(),
            forall|j: int| 0 <= j < i ==> a@[j] == b@[j],
        decreases a@.len() - i,
    {
        if a[i] != b[i] {
            return false;
        }
        i = i + 1;
    }
    proof {
        assert(a@ =~= b@);
    }
    true
}

/// The artifact of a finished run: the environment handle, the final file
/// list (paths pairwise distinct), the final command queue, and the log of
/// questions resolved along the way. Immutable once built; materializing it
/// is the embedding program's job.
pub struct GeenieResult<E> {
    /// The environment the run was driven by, handed back for
    /// materialization-time reporting.
    pub env: E,
    /// The files to write, in registration order.
    pub files: FileList,
    /// The commands to run afterwards, strictly in registration order.
    pub commands: CommandList,
    /// Every prompt resolved during the run, in the order asked.
    pub answers: Vec<Qa>,
}

} // verus!
