//! Scanning a listing for requested extensions.
//!
//! The extensions are a filter, not a list of requirements: every entry
//! whose extension is one of them matches, however many there are, and a
//! listing without a single match is no failure.

use crate::error::{ending, Error, ErrorView};
use crate::listing::{Directory, Entry, EntryView, Extension, ExtensionView};
use crate::scan::{first_equal, Match, Report, ReportView, Step};
use vstd::prelude::*;

verus! {

/// The state of a scan by extension.
pub struct ExtensionScanView {
    /// The requested extensions, without the dot.
    pub extensions: Seq<Seq<char>>,
    /// Whether entries that cannot be read are passed over.
    pub ignore_fail: bool,
    /// Whether an entry that could not be read has stopped the scan.
    pub stopped: bool,
}

impl ExtensionScanView {
    /// The state before the first entry.
    pub open spec fn start(extensions: Seq<Seq<char>>, ignore_fail: bool) -> ExtensionScanView {
        ExtensionScanView { extensions, ignore_fail, stopped: false }
    }

    /// What the scan answers `entry` with. An entry matches when its
    /// extension is valid text and equals a requested extension exactly; the
    /// step names the first such request. An entry without an extension, or
    /// with one that is not valid text, is passed over.
    pub open spec fn step(self, entry: EntryView) -> Step {
        if self.stopped {
            Step::Stop
        } else {
            match entry {
                EntryView::Unreadable => if self.ignore_fail {
                    Step::Skip
                } else {
                    Step::Stop
                },
                EntryView::Listed { extension: ExtensionView::Text(text), .. } => {
                    let at = first_equal(self.extensions, text, 0);
                    if at < self.extensions.len() {
                        Step::Apply(at as usize)
                    } else {
                        Step::Skip
                    }
                },
                EntryView::Listed { .. } => Step::Skip,
            }
        }
    }

    /// The state after `entry`: only an entry that cannot be read changes
    /// it, and only when such entries are not passed over.
    pub open spec fn after(self, entry: EntryView) -> ExtensionScanView {
        if !self.stopped && !self.ignore_fail && entry is Unreadable {
            ExtensionScanView { stopped: true, ..self }
        } else {
            self
        }
    }

    /// The state after all of `entries`, in their order.
    pub open spec fn run(self, entries: Seq<EntryView>) -> ExtensionScanView
        decreases entries.len(),
    {
        if entries.len() == 0 {
            self
        } else {
            self.run(entries.drop_last()).after(entries.last())
        }
    }

    /// The matches that `entries` give, in their order.
    pub open spec fn applied(self, entries: Seq<EntryView>) -> Seq<Match>
        decreases entries.len(),
    {
        if entries.len() == 0 {
            Seq::empty()
        } else {
            let earlier = self.applied(entries.drop_last());
            match self.run(entries.drop_last()).step(entries.last()) {
                Step::Apply(request) => earlier.push(
                    Match { entry: (entries.len() - 1) as usize, request },
                ),
                _ => earlier,
            }
        }
    }

    /// How a scan that ends in this state ends: it fails only if an entry
    /// that could not be read has stopped it.
    pub open spec fn outcome(self) -> Result<(), ErrorView> {
        if self.stopped {
            Err(ErrorView::CouldNotOpenEntry)
        } else {
            Ok(())
        }
    }
}

/// A scan that has stopped reads no more: the entries after the one that
/// stopped it change neither its state nor its matches.
pub proof fn lemma_stopped_scan_reads_no_more(
    start: ExtensionScanView,
    entries: Seq<EntryView>,
    read: int,
)
    requires
        0 <= read <= entries.len(),
        start.run(entries.take(read)).stopped,
    ensures
        start.run(entries) == start.run(entries.take(read)),
        start.applied(entries) == start.applied(entries.take(read)),
    decreases entries.len(),
{
    if read == entries.len() {
        assert(entries.take(read) == entries);
    } else {
        assert(entries.drop_last().take(read) == entries.take(read));
        lemma_stopped_scan_reads_no_more(start, entries.drop_last(), read);
    }
}

/// What a scan by extension of a whole listing comes to: nothing is matched
/// in a directory that cannot be listed.
pub open spec fn report_by_extension(
    directory: Directory,
    entries: Seq<EntryView>,
    extensions: Seq<Seq<char>>,
    ignore_fail: bool,
) -> ReportView {
    match directory.verdict() {
        Err(error) => ReportView { applied: Seq::empty(), result: Err(error) },
        Ok(_) => {
            let start = ExtensionScanView::start(extensions, ignore_fail);
            ReportView { applied: start.applied(entries), result: start.run(entries).outcome() }
        },
    }
}

/// A scan by extension in progress.
pub struct ExtensionScan {
    extensions: Vec<String>,
    ignore_fail: bool,
    stopped: bool,
}

impl View for ExtensionScan {
    type V = ExtensionScanView;

    closed spec fn view(&self) -> ExtensionScanView {
        ExtensionScanView {
            extensions: self.extensions.deep_view(),
            ignore_fail: self.ignore_fail,
            stopped: self.stopped,
        }
    }
}

impl ExtensionScan {
    /// Starts a scan for `extensions`.
    pub fn new(extensions: Vec<String>, ignore_fail: bool) -> (scan: ExtensionScan)
        ensures
            scan@ == ExtensionScanView::start(extensions.deep_view(), ignore_fail),
    {
        ExtensionScan { extensions, ignore_fail, stopped: false }
    }

    /// Observes the next entry of the listing.
    pub fn observe(&mut self, entry: &Entry) -> (step: Step)
        ensures
            step == old(self)@.step(entry@),
            final(self)@ == old(self)@.after(entry@),
    {
        if self.stopped {
            return Step::Stop;
        }
        match entry {
            Entry::Unreadable => {
                if self.ignore_fail {
                    Step::Skip
                } else {
                    self.stopped = true;
                    Step::Stop
                }
            },
            Entry::Listed { extension: Extension::Text(text), .. } => {
                let ghost texts = self.extensions.deep_view();
                let mut at: usize = 0;
                while at < self.extensions.len()
                    invariant
                        *self == *old(self),
                        !self.stopped,
                        entry@ is Listed && entry@->extension == ExtensionView::Text(text@),
                        texts == self.extensions.deep_view(),
                        at <= self.extensions.len(),
                        first_equal(texts, text@, at as int) == first_equal(texts, text@, 0),
                    decreases self.extensions.len() - at,
                {
                    assert(texts[at as int] == self.extensions@[at as int]@);
                    if self.extensions[at] == *text {
                        return Step::Apply(at);
                    }
                    at += 1;
                }
                Step::Skip
            },
            Entry::Listed { .. } => Step::Skip,
        }
    }

    /// Ends the scan.
    pub fn finish(self) -> (result: Result<(), Error>)
        ensures
            ending(result) == self@.outcome(),
    {
        if self.stopped {
            Err(Error::CouldNotOpenEntry)
        } else {
            Ok(())
        }
    }
}

/// Scans a whole listing for `extensions`: checks the directory, observes
/// the entries in their order and ends the scan.
pub fn find_by_extension(
    directory: &Directory,
    entries: &Vec<Entry>,
    extensions: Vec<String>,
    ignore_fail: bool,
) -> (report: Report)
    ensures
        report@ == report_by_extension(
            *directory,
            entries.deep_view(),
            extensions.deep_view(),
            ignore_fail,
        ),
{
    match directory.check() {
        Err(error) => Report { applied: Vec::new(), result: Err(error) },
        Ok(_) => {
            let ghost start = ExtensionScanView::start(extensions.deep_view(), ignore_fail);
            let ghost listing = entries.deep_view();
            let mut scan = ExtensionScan::new(extensions, ignore_fail);
            let mut applied: Vec<Match> = Vec::new();
            let mut at: usize = 0;
            proof {
                assert(listing.take(0) == Seq::<EntryView>::empty());
                if entries.len() == 0 {
                    assert(listing == Seq::<EntryView>::empty());
                }
            }
            while at < entries.len()
                invariant_except_break
                    scan@ == start.run(listing.take(at as int)),
                    applied@ == start.applied(listing.take(at as int)),
                    at == entries.len() ==> listing.take(at as int) == listing,
                invariant
                    at <= entries.len(),
                    listing == entries.deep_view(),
                ensures
                    scan@ == start.run(listing),
                    applied@ == start.applied(listing),
                decreases entries.len() - at,
            {
                proof {
                    assert(listing.take(at + 1).drop_last() == listing.take(at as int));
                    assert(listing.take(at + 1).last() == entries[at as int]@);
                }
                match scan.observe(&entries[at]) {
                    Step::Apply(request) => {
                        applied.push(Match { entry: at, request });
                    },
                    Step::Skip => {},
                    Step::Stop => {
                        proof {
                            lemma_stopped_scan_reads_no_more(start, listing, at + 1);
                        }
                        break;
                    },
                }
                at += 1;
                proof {
                    if at == entries.len() {
                        assert(listing.take(at as int) == listing);
                    }
                }
            }
            Report { applied, result: scan.finish() }
        },
    }
}

} // verus!
