//! The library's error values. Every fallible operation reports one of
//! these; the surrounding application turns them into user-facing text.

use vstd::prelude::*;

verus! {

/// What went wrong in a library operation.
#[derive(Clone, Copy, PartialEq, Eq, Structural, Debug)]
pub enum AppError {
    /// No library entry exists under the given item id.
    MissingEntry,
    /// The file index is not a valid index into the entry's file list.
    BadFileIndex,
    /// The page archive for the given path is not in the cache.
    CacheMiss,
    /// The archive's bytes could not be read as a page archive.
    BadArchive,
    /// The page index is not a valid index into the loaded archive.
    BadPageIndex,
    /// No active download bookkeeping exists for the given item id.
    MissingDownload,
}

impl AppError {
    /// A short description, for the presentation layer.
    pub fn message(&self) -> (r: &'static str)
        ensures
            r@ == self.spec_message(),
    {
        match self {
            AppError::MissingEntry => "missing library entry",
            AppError::BadFileIndex => "no file at that index",
            AppError::CacheMiss => "archive not loaded",
            AppError::BadArchive => "malformed page archive",
            AppError::BadPageIndex => "no page at that index",
            AppError::MissingDownload => "no active download with that id",
        }
    }

    /// The description `message` returns.
    pub open spec fn spec_message(&self) -> Seq<char> {
        match self {
            AppError::MissingEntry => "missing library entry"@,
            AppError::BadFileIndex => "no file at that index"@,
            AppError::CacheMiss => "archive not loaded"@,
            AppError::BadArchive => "malformed page archive"@,
            AppError::BadPageIndex => "no page at that index"@,
            AppError::MissingDownload => "no active download with that id"@,
        }
    }
}

} // verus!
