//! Locating files within one directory level, by exact name or by extension.
//!
//! The library holds the decisions of a scan: which listed entries match a
//! request, which requests are still pending, when a scan stops early and how
//! it ends. Listing the directory and acting on a match are left to the
//! caller, which hands each listed entry to a scan and performs the step that
//! the scan answers with.

pub mod error;
pub mod extension_laws;
pub mod extensions;
pub mod laws;
pub mod listing;
pub mod names;
pub mod outside;
pub mod record;
pub mod scan;

pub use error::{Error, ErrorView};
pub use extensions::{find_by_extension, ExtensionScan, ExtensionScanView};
pub use listing::{Directory, Entry, EntryView, Extension, ExtensionView};
pub use names::{find_by_name, NameScan, NameScanView};
pub use record::{FileModify, SaveFileFormat};
pub use scan::{Match, Report, ReportView, Step};
