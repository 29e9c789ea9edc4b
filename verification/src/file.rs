//! Files as immutable values: a relative path (a byte string) plus byte
//! content, and the ordered, duplicate-free list a run produces.

use vstd::prelude::*;

verus! {

/// One output file: a relative path and its content, immutable once built.
pub struct File {
    /// The file's final path, relative to the destination directory.
    pub path: Vec<u8>,
    /// The file's content.
    pub content: Vec<u8>,
}

/// The mathematical value of a [`File`]: its path and content as sequences.
pub struct SpecFile {
    pub path: Seq<u8>,
    pub content: Seq<u8>,
}

impl View for File {
    type V = SpecFile;

    open spec fn view(&self) -> SpecFile {
        SpecFile { path: self.path@, content: self.content@ }
    }
}

impl File {
    /// Builds the file value for `path` with the given `content`.
    pub fn new(path: Vec<u8>, content: Vec<u8>) -> (file: File)
        ensures
            file@ == (SpecFile { path: path@, content: content@ }),
    {
        File { path, content }
    }
}

/// The views of a sequence of files.
pub open spec fn views_of(files: Seq<File>) -> Seq<SpecFile> {
    files.map_values(|f: File| f@)
}

/// No two files in the sequence share a path.
pub open spec fn paths_distinct(files: Seq<SpecFile>) -> bool {
    forall|i: int, j: int|
        0 <= i < j < files.len() ==> #[trigger] files[i].path != #[trigger] files[j].path
}

/// The ordered list of files a run produced; the engine guarantees that the
/// paths are pairwise distinct.
pub struct FileList {
    /// The files, in registration order.
    pub files: Vec<File>,
}

impl FileList {
    /// Wraps an ordered list of files.
    pub fn new(files: Vec<File>) -> (list: FileList)
        ensures
            list.files@ == files@,
    {
        FileList { files }
    }

    /// How many files the list holds.
    pub fn len(&self) -> (n: usize)
        ensures
            n == self.files@.len(),
    {
        self.files.len()
    }

    /// The file at position `i`, in registration order.
    pub fn get(&self, i: usize) -> (file: &File)
        requires
            i < self.files@.len(),
        ensures
            *file == self.files@[i as int],
    {
        &self.files[i]
    }
}

} // verus!
