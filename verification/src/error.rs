//! The errors that a scan can end with.

use crate::outside::{debug_of_indexes, debug_of_path, indexes_debug, path_debug};
use std::path::PathBuf;
use vstd::prelude::*;
use vstd::string::StringExecFns;

verus! {

/// Why a scan failed.
#[derive(Debug, Clone)]
pub enum Error {
    /// The name of a listed entry is not valid text.
    InvalidUnicodeData,
    /// The directory path itself is not valid text.
    NullDirectory,
    /// The listing could not inspect one of its entries.
    CouldNotOpenEntry,
    /// The directory does not exist.
    DirectoryDoesNotExist(PathBuf),
    /// The listing ended while requested names were still unmatched; the
    /// payload holds their positions in the request, in increasing order.
    MissingFiles(Vec<usize>),
}

/// What an `Error` says, with the list of missing requests as a sequence.
pub enum ErrorView {
    InvalidUnicodeData,
    NullDirectory,
    CouldNotOpenEntry,
    DirectoryDoesNotExist(PathBuf),
    MissingFiles(Seq<usize>),
}

impl ErrorView {
    /// The message of the error, for people to read.
    pub open spec fn message(self) -> Seq<char> {
        match self {
            ErrorView::InvalidUnicodeData => "Entry name contains invalid Unicode data"@,
            ErrorView::NullDirectory => "Null directory does not exist"@,
            ErrorView::CouldNotOpenEntry => "Could not open entry"@,
            ErrorView::DirectoryDoesNotExist(path) => "Directory does not exist:\n"@ + path_debug(
                path,
            ),
            ErrorView::MissingFiles(indexes) => "Could not find all files\nMissing files: "@
                + indexes_debug(indexes),
        }
    }
}

impl Error {
    /// The message of the error, for people to read: a fixed text for each
    /// kind of error, followed by the directory or by the missing positions
    /// where the error holds them.
    pub fn message(&self) -> (text: String)
        ensures
            text@ == self@.message(),
    {
        match self {
            Error::InvalidUnicodeData => "Entry name contains invalid Unicode data".to_owned(),
            Error::NullDirectory => "Null directory does not exist".to_owned(),
            Error::CouldNotOpenEntry => "Could not open entry".to_owned(),
            Error::DirectoryDoesNotExist(path) => {
                let shown = debug_of_path(path);
                "Directory does not exist:\n".to_owned().concat(shown.as_str())
            },
            Error::MissingFiles(indexes) => {
                let shown = debug_of_indexes(indexes);
                "Could not find all files\nMissing files: ".to_owned().concat(shown.as_str())
            },
        }
    }
}

impl View for Error {
    type V = ErrorView;

    open spec fn view(&self) -> ErrorView {
        match self {
            Error::InvalidUnicodeData => ErrorView::InvalidUnicodeData,
            Error::NullDirectory => ErrorView::NullDirectory,
            Error::CouldNotOpenEntry => ErrorView::CouldNotOpenEntry,
            Error::DirectoryDoesNotExist(path) => ErrorView::DirectoryDoesNotExist(*path),
            Error::MissingFiles(indexes) => ErrorView::MissingFiles(indexes@),
        }
    }
}

/// The view of how a scan ended: success, or the view of its error.
pub open spec fn ending(result: Result<(), Error>) -> Result<(), ErrorView> {
    match result {
        Ok(_) => Ok(()),
        Err(error) => Err(error@),
    }
}

} // verus!
