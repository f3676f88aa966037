//! The record of a file and its last modification, and the formats that such
//! a record can be saved in.

use std::path::PathBuf;
use std::time::SystemTime;
use vstd::prelude::*;

verus! {

/// A file name together with the time of its last modification.
///
/// It is used to keep record of state changes. The record is immutable: it
/// is built once from the two values and keeps them as given.
#[derive(Debug)]
pub struct FileModify {
    filename: PathBuf,
    date: SystemTime,
}

impl FileModify {
    /// The path that the record was built from.
    pub closed spec fn filename(&self) -> PathBuf {
        self.filename
    }

    /// The timestamp that the record was built from.
    pub closed spec fn date(&self) -> SystemTime {
        self.date
    }

    /// Builds the record of `filename`, last modified at `date`.
    pub fn new(filename: PathBuf, date: SystemTime) -> (record: FileModify)
        ensures
            record.filename() == filename,
            record.date() == date,
    {
        FileModify { filename, date }
    }
}

/// The formats that a `FileModify` can be saved in.
#[derive(Debug, Copy, Clone)]
pub enum SaveFileFormat {
    JSON,
    Bincode,
    CBOR,
    YAML,
    TOML,
    MessagePack,
    RON,
}

} // verus!
