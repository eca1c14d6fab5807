//! Storing documents as files in a directory.

use vstd::prelude::*;

verus! {

/// The suffix of the file that holds a document.
pub const FILE_SUFFIX: &'static str = "_plain.txt";

/// The directory that receives the documents, by its path as the file
/// system holds it (bytes, which need not be UTF-8).
#[derive(Debug)]
pub struct DataDir {
    dest_dir: Vec<u8>,
}

impl View for DataDir {
    type V = Seq<u8>;

    /// The directory's path.
    closed spec fn view(&self) -> Seq<u8> {
        self.dest_dir@
    }
}

impl DataDir {
    /// The store for the directory with path `dest_dir` (which must exist).
    pub fn at(dest_dir: Vec<u8>) -> (dir: Self)
        ensures
            dir@ == dest_dir@,
    {
        DataDir { dest_dir }
    }

    /// The directory's path.
    pub fn dest_dir(&self) -> (path: &[u8])
        ensures
            path@ == self@,
    {
        self.dest_dir.as_slice()
    }

    /// The name of the file in the directory that holds the document with
    /// key `prefix`.
    pub fn file_name(prefix: &str) -> (name: String)
        ensures
            name@ == prefix@ + FILE_SUFFIX@,
    {
        let mut name = prefix.to_owned();
        name.append(FILE_SUFFIX);
        name
    }
}

} // verus!
