//! What a scan reads of a directory and of the entries that listing it
//! yields, as plain values.

use crate::error::{Error, ErrorView};
use std::path::PathBuf;
use vstd::prelude::*;

verus! {

/// What is known of a directory before it is listed.
pub struct Directory {
    /// The path that was asked for.
    pub path: PathBuf,
    /// Whether the path is valid text.
    pub is_text: bool,
    /// Whether the path names something that exists.
    pub exists: bool,
}

impl Directory {
    /// Whether the directory can be listed, and the error if it cannot. A
    /// path that is not valid text is reported before a missing directory.
    pub open spec fn verdict(self) -> Result<(), ErrorView> {
        if !self.is_text {
            Err(ErrorView::NullDirectory)
        } else if !self.exists {
            Err(ErrorView::DirectoryDoesNotExist(self.path))
        } else {
            Ok(())
        }
    }

    /// Decides whether the directory can be listed. This is the first thing
    /// that every scan does: no entry is read of a directory that fails it.
    pub fn check(&self) -> (result: Result<(), Error>)
        ensures
            crate::error::ending(result) == self.verdict(),
    {
        if !self.is_text {
            Err(Error::NullDirectory)
        } else if !self.exists {
            Err(Error::DirectoryDoesNotExist(self.path.clone()))
        } else {
            Ok(())
        }
    }
}

/// The extension of a listed entry.
#[derive(Debug)]
pub enum Extension {
    /// The entry has no extension.
    Absent,
    /// The entry has an extension that is not valid text.
    NotText,
    /// The text after the last dot of the entry's name.
    Text(String),
}

/// An `Extension` with its text as a sequence of characters.
pub enum ExtensionView {
    Absent,
    NotText,
    Text(Seq<char>),
}

impl View for Extension {
    type V = ExtensionView;

    open spec fn view(&self) -> ExtensionView {
        match self {
            Extension::Absent => ExtensionView::Absent,
            Extension::NotText => ExtensionView::NotText,
            Extension::Text(text) => ExtensionView::Text(text@),
        }
    }
}

/// One item that listing a directory yields.
#[derive(Debug)]
pub enum Entry {
    /// The listing failed to inspect the entry.
    Unreadable,
    /// An entry that was inspected.
    Listed {
        /// The bare file name, or `None` where it is not valid text.
        name: Option<String>,
        /// The extension of the entry's path.
        extension: Extension,
    },
}

/// An `Entry` with its texts as sequences of characters.
pub enum EntryView {
    Unreadable,
    Listed { name: Option<Seq<char>>, extension: ExtensionView },
}

impl EntryView {
    /// Whether the entry was inspected and has a name that is valid text:
    /// the entries that a scan by name never fails on.
    pub open spec fn is_named(self) -> bool {
        self matches EntryView::Listed { name: Some(_), .. }
    }

    /// Whether the entry was inspected: the entries that a scan by extension
    /// never fails on.
    pub open spec fn is_listed(self) -> bool {
        self is Listed
    }

    /// Whether the entry has exactly `name` as its name.
    pub open spec fn bears(self, name: Seq<char>) -> bool {
        self matches EntryView::Listed { name: Some(text), .. } && text == name
    }

    /// Whether the entry has exactly `extension` as its extension.
    pub open spec fn ends_in(self, extension: Seq<char>) -> bool {
        self matches EntryView::Listed { extension: ExtensionView::Text(text), .. } && text
            == extension
    }
}

impl View for Entry {
    type V = EntryView;

    open spec fn view(&self) -> EntryView {
        match self {
            Entry::Unreadable => EntryView::Unreadable,
            Entry::Listed { name, extension } => EntryView::Listed {
                name: match name {
                    Some(text) => Some(text@),
                    None => None,
                },
                extension: extension@,
            },
        }
    }
}

impl DeepView for Entry {
    type V = EntryView;

    open spec fn deep_view(&self) -> EntryView {
        self@
    }
}

} // verus!
