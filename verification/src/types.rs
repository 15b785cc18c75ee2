//! Input data model.
//!
//! Paths are plain slash-separated strings; the caller that walks the
//! filesystem converts its native paths before handing files in.

use vstd::prelude::*;

verus! {

/// Contents of one input file with its folder and path metadata.
#[derive(Debug, Clone)]
pub struct FileContents {
    pub folder: String,
    pub path: String,
    pub contents: String,
}

/// Ghost model of one input file.
#[verifier::ext_equal]
pub struct FileModel {
    pub folder: Seq<char>,
    pub path: Seq<char>,
    pub contents: Seq<char>,
}

impl View for FileContents {
    type V = FileModel;

    open spec fn view(&self) -> FileModel {
        FileModel { folder: self.folder@, path: self.path@, contents: self.contents@ }
    }
}

/// The ghost models of a vector of files.
pub open spec fn files_view(files: Seq<FileContents>) -> Seq<FileModel> {
    files.map(|i: int, f: FileContents| f@)
}

} // verus!
