//! Entries of the two lists: a file's name, and where the file is.

use std::path::PathBuf;
use vstd::prelude::*;
use vstd::string::StrSliceExecFns;
use crate::metric::{length_fits, name_fits};

verus! {

/// `std::path::PathBuf`. The library carries paths from where an entry comes
/// in to where a plan goes out and never looks into one.
#[verifier::external_type_specification]
#[verifier::external_body]
pub struct ExPathBuf(PathBuf);

/// A file: its name, by which it is matched, and its path.
#[derive(Debug, PartialEq, Eq)]
pub struct FilePath {
    pub name: String,
    pub path: PathBuf,
}

/// What a file is to the library: the characters of its name, and its path.
pub struct FileView {
    pub name: Seq<char>,
    pub path: PathBuf,
}

impl FileView {
    /// Whether the name is short enough to be compared by every metric.
    pub open spec fn wf(self) -> bool {
        length_fits(self.name.len())
    }
}

impl View for FilePath {
    type V = FileView;

    open spec fn view(&self) -> FileView {
        FileView { name: self.name@, path: self.path }
    }
}

/// What each of `files` is to the library.
pub open spec fn file_views(files: Seq<FilePath>) -> Seq<FileView> {
    files.map_values(|file: FilePath| file@)
}

impl FilePath {
    /// The entry of the file at `path` that is called `name`.
    pub fn new(name: String, path: PathBuf) -> (entry: FilePath)
        ensures
            entry@ == (FileView { name: name@, path }),
    {
        FilePath { name, path }
    }

    /// The entry of the file at `path`, whose name was read as `name`. A file
    /// whose name could not be read has none.
    pub fn try_from(name: Option<String>, path: PathBuf) -> (entry: Result<FilePath, ()>)
        ensures
            match entry {
                Ok(entry) => name matches Some(name) && entry@ == (FileView { name: name@, path }),
                Err(_) => name is None,
            },
    {
        match name {
            Some(name) => Ok(FilePath { name, path }),
            None => Err(()),
        }
    }

    /// Whether the name is short enough to be compared by every metric.
    pub fn fits(&self) -> (fits: bool)
        ensures
            fits == self@.wf(),
    {
        name_fits(self.name.as_str().unicode_len())
    }
}

} // verus!
