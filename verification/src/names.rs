//! Scanning a listing for requested names.
//!
//! Every requested name is pending until a listed entry bears it. An entry
//! consumes the first pending request of its name and no other, so a name
//! that is requested twice needs two entries. The scan succeeds when nothing
//! is pending at the end of the listing.

use crate::error::{ending, Error, ErrorView};
use crate::listing::{Directory, Entry, EntryView};
use crate::scan::{first_equal, Match, Report, ReportView, Step};
use vstd::prelude::*;

verus! {

/// The state of a scan by name.
pub struct NameScanView {
    /// The requested names.
    pub names: Seq<Seq<char>>,
    /// The positions of the requests that no entry has matched yet, in
    /// increasing order.
    pub pending: Seq<usize>,
    /// Whether entries that cannot be read are passed over.
    pub ignore_fail: bool,
    /// The error that stopped the scan, if one did.
    pub fault: Option<ErrorView>,
}

impl NameScanView {
    /// The state before the first entry: every request is pending.
    pub open spec fn start(names: Seq<Seq<char>>, ignore_fail: bool) -> NameScanView {
        NameScanView {
            names,
            pending: Seq::new(names.len(), |i: int| i as usize),
            ignore_fail,
            fault: None,
        }
    }

    /// The pending positions lie within the request and increase strictly.
    pub open spec fn well_formed(self) -> bool {
        &&& forall|j: int| 0 <= j < self.pending.len() ==> self.pending[j] < self.names.len()
        &&& forall|j: int, k: int|
            0 <= j < k < self.pending.len() ==> self.pending[j] < self.pending[k]
    }

    /// The names of the pending requests, in the order of the request.
    pub open spec fn pending_names(self) -> Seq<Seq<char>> {
        Seq::new(self.pending.len(), |j: int| self.names[self.pending[j] as int])
    }

    /// What the scan answers `entry` with.
    pub open spec fn step(self, entry: EntryView) -> Step {
        if self.fault is Some {
            Step::Stop
        } else {
            match entry {
                EntryView::Listed { name: Some(text), .. } => {
                    let at = first_equal(self.pending_names(), text, 0);
                    if at < self.pending.len() {
                        Step::Apply(self.pending[at])
                    } else {
                        Step::Skip
                    }
                },
                _ => if self.ignore_fail {
                    Step::Skip
                } else {
                    Step::Stop
                },
            }
        }
    }

    /// The state after `entry`. A scan that has stopped stays as it is.
    pub open spec fn after(self, entry: EntryView) -> NameScanView {
        if self.fault is Some {
            self
        } else {
            match entry {
                EntryView::Unreadable => if self.ignore_fail {
                    self
                } else {
                    NameScanView { fault: Some(ErrorView::CouldNotOpenEntry), ..self }
                },
                EntryView::Listed { name: None, .. } => if self.ignore_fail {
                    self
                } else {
                    NameScanView { fault: Some(ErrorView::InvalidUnicodeData), ..self }
                },
                EntryView::Listed { name: Some(text), .. } => {
                    let at = first_equal(self.pending_names(), text, 0);
                    if at < self.pending.len() {
                        NameScanView { pending: self.pending.remove(at), ..self }
                    } else {
                        self
                    }
                },
            }
        }
    }

    /// The state after all of `entries`, in their order.
    pub open spec fn run(self, entries: Seq<EntryView>) -> NameScanView
        decreases entries.len(),
    {
        if entries.len() == 0 {
            self
        } else {
            self.run(entries.drop_last()).after(entries.last())
        }
    }

    /// The matches that `entries` give, in their order.
    pub open spec fn applied(self, entries: Seq<EntryView>) -> Seq<Match>
        decreases entries.len(),
    {
        if entries.len() == 0 {
            Seq::empty()
        } else {
            let earlier = self.applied(entries.drop_last());
            match self.run(entries.drop_last()).step(entries.last()) {
                Step::Apply(request) => earlier.push(
                    Match { entry: (entries.len() - 1) as usize, request },
                ),
                _ => earlier,
            }
        }
    }

    /// How a scan that ends in this state ends: with the error that stopped
    /// it, else with the pending requests as missing, else with success.
    pub open spec fn outcome(self) -> Result<(), ErrorView> {
        match self.fault {
            Some(error) => Err(error),
            None => if self.pending.len() == 0 {
                Ok(())
            } else {
                Err(ErrorView::MissingFiles(self.pending))
            },
        }
    }
}

/// Taking one request out of the pending ones leaves the others as they
/// were, in their order: the state stays well formed, and each position of
/// the shorter list holds what the longer one held there, or one further on.
pub proof fn lemma_consumed_request(state: NameScanView, at: int)
    requires
        state.well_formed(),
        0 <= at < state.pending.len(),
    ensures
        (NameScanView { pending: state.pending.remove(at), ..state }).well_formed(),
        state.pending.remove(at).len() == state.pending.len() - 1,
        forall|p: int|
            0 <= p < state.pending.len() - 1 ==> #[trigger] state.pending.remove(at)[p]
                == state.pending[if p < at { p } else { p + 1 }],
{
    let rest = state.pending.remove(at);
    assert forall|p: int| 0 <= p < state.pending.len() - 1 implies #[trigger] rest[p]
        == state.pending[if p < at { p } else { p + 1 }] by {}
    assert forall|j: int, k: int| 0 <= j < k < rest.len() implies rest[j] < rest[k] by {
        assert(rest[j] == state.pending[if j < at { j } else { j + 1 }]);
        assert(rest[k] == state.pending[if k < at { k } else { k + 1 }]);
    }
}

/// A scan that has stopped reads no more: the entries after the one that
/// stopped it change neither its state nor its matches.
pub proof fn lemma_stopped_scan_reads_no_more(
    start: NameScanView,
    entries: Seq<EntryView>,
    read: int,
)
    requires
        0 <= read <= entries.len(),
        start.run(entries.take(read)).fault is Some,
    ensures
        start.run(entries) == start.run(entries.take(read)),
        start.applied(entries) == start.applied(entries.take(read)),
    decreases entries.len(),
{
    if read == entries.len() {
        assert(entries.take(read) == entries);
    } else {
        assert(entries.drop_last().take(read) == entries.take(read));
        lemma_stopped_scan_reads_no_more(start, entries.drop_last(), read);
    }
}

/// What a scan by name of a whole listing comes to: nothing is matched in a
/// directory that cannot be listed.
pub open spec fn report_by_name(
    directory: Directory,
    entries: Seq<EntryView>,
    names: Seq<Seq<char>>,
    ignore_fail: bool,
) -> ReportView {
    match directory.verdict() {
        Err(error) => ReportView { applied: Seq::empty(), result: Err(error) },
        Ok(_) => {
            let start = NameScanView::start(names, ignore_fail);
            ReportView { applied: start.applied(entries), result: start.run(entries).outcome() }
        },
    }
}

/// A scan by name in progress.
pub struct NameScan {
    names: Vec<String>,
    pending: Vec<usize>,
    ignore_fail: bool,
    stopped: Option<Error>,
}

impl View for NameScan {
    type V = NameScanView;

    closed spec fn view(&self) -> NameScanView {
        NameScanView {
            names: self.names.deep_view(),
            pending: self.pending@,
            ignore_fail: self.ignore_fail,
            fault: match self.stopped {
                Some(error) => Some(error@),
                None => None,
            },
        }
    }
}

impl NameScan {
    /// Holds of every scan that exists: the model of its state is well
    /// formed.
    #[verifier::type_invariant]
    spec fn inv(self) -> bool {
        self@.well_formed()
    }

    /// Starts a scan for `names`, all of them pending.
    pub fn new(names: Vec<String>, ignore_fail: bool) -> (scan: NameScan)
        ensures
            scan@ == NameScanView::start(names.deep_view(), ignore_fail),
    {
        let mut pending: Vec<usize> = Vec::new();
        let mut next: usize = 0;
        while next < names.len()
            invariant
                next <= names.len(),
                pending@ == Seq::new(next as nat, |i: int| i as usize),
            decreases names.len() - next,
        {
            pending.push(next);
            next += 1;
        }
        NameScan { names, pending, ignore_fail, stopped: None }
    }

    /// Observes the next entry of the listing. The entry consumes the first
    /// pending request that bears its name, if there is one; an entry that
    /// cannot be read stops the scan unless such entries are passed over.
    pub fn observe(&mut self, entry: &Entry) -> (step: Step)
        ensures
            step == old(self)@.step(entry@),
            final(self)@ == old(self)@.after(entry@),
    {
        proof {
            use_type_invariant(&*self);
        }
        if self.stopped.is_some() {
            return Step::Stop;
        }
        match entry {
            Entry::Listed { name: Some(text), .. } => {
                let ghost texts = self@.pending_names();
                let mut at: usize = 0;
                while at < self.pending.len()
                    invariant
                        *self == *old(self),
                        self.stopped is None,
                        entry@ is Listed && entry@->name == Some(text@),
                        self@.well_formed(),
                        texts == self@.pending_names(),
                        at <= self.pending.len(),
                        first_equal(texts, text@, at as int) == first_equal(texts, text@, 0),
                    decreases self.pending.len() - at,
                {
                    let request = self.pending[at];
                    assert(texts[at as int] == self.names@[request as int]@);
                    if self.names[request] == *text {
                        // The list is taken out of the scan while the request leaves it.
                        let mut rest: Vec<usize> = Vec::new();
                        std::mem::swap(&mut self.pending, &mut rest);
                        rest.remove(at);
                        proof {
                            lemma_consumed_request(old(self)@, at as int);
                        }
                        self.pending = rest;
                        return Step::Apply(request);
                    }
                    at += 1;
                }
                Step::Skip
            },
            Entry::Listed { name: None, .. } => {
                if self.ignore_fail {
                    Step::Skip
                } else {
                    self.stopped = Some(Error::InvalidUnicodeData);
                    Step::Stop
                }
            },
            Entry::Unreadable => {
                if self.ignore_fail {
                    Step::Skip
                } else {
                    self.stopped = Some(Error::CouldNotOpenEntry);
                    Step::Stop
                }
            },
        }
    }

    /// Ends the scan: the error that stopped it, else the requests that are
    /// still pending as missing, else success.
    pub fn finish(self) -> (result: Result<(), Error>)
        ensures
            ending(result) == self@.outcome(),
    {
        let NameScan { names: _, pending, ignore_fail: _, stopped } = self;
        match stopped {
            Some(error) => Err(error),
            None => if pending.len() == 0 {
                Ok(())
            } else {
                Err(Error::MissingFiles(pending))
            },
        }
    }

    /// Ends a scan that loaded something for every match: what was loaded is
    /// handed back, as it is, only if the scan succeeds. Where it fails,
    /// what was loaded is dropped and the error of `finish` is returned.
    pub fn finish_with<T>(self, loaded: Vec<T>) -> (result: Result<Vec<T>, Error>)
        ensures
            match result {
                Ok(kept) => self@.outcome() is Ok && kept == loaded,
                Err(error) => self@.outcome() == Err::<(), ErrorView>(error@),
            },
    {
        match self.finish() {
            Ok(_) => Ok(loaded),
            Err(error) => Err(error),
        }
    }
}

/// Scans a whole listing for `names`: checks the directory, observes the
/// entries in their order and ends the scan.
pub fn find_by_name(
    directory: &Directory,
    entries: &Vec<Entry>,
    names: Vec<String>,
    ignore_fail: bool,
) -> (report: Report)
    ensures
        report@ == report_by_name(*directory, entries.deep_view(), names.deep_view(), ignore_fail),
{
    match directory.check() {
        Err(error) => Report { applied: Vec::new(), result: Err(error) },
        Ok(_) => {
            let ghost start = NameScanView::start(names.deep_view(), ignore_fail);
            let ghost listing = entries.deep_view();
            let mut scan = NameScan::new(names, ignore_fail);
            let mut applied: Vec<Match> = Vec::new();
            let mut at: usize = 0;
            proof {
                assert(listing.take(0) == Seq::<EntryView>::empty());
                if entries.len() == 0 {
                    assert(listing == Seq::<EntryView>::empty());
                }
            }
            while at < entries.len()
                invariant_except_break
                    scan@ == start.run(listing.take(at as int)),
                    applied@ == start.applied(listing.take(at as int)),
                    at == entries.len() ==> listing.take(at as int) == listing,
                invariant
                    at <= entries.len(),
                    listing == entries.deep_view(),
                ensures
                    scan@ == start.run(listing),
                    applied@ == start.applied(listing),
                decreases entries.len() - at,
            {
                proof {
                    assert(listing.take(at + 1).drop_last() == listing.take(at as int));
                    assert(listing.take(at + 1).last() == entries[at as int]@);
                }
                match scan.observe(&entries[at]) {
                    Step::Apply(request) => {
                        applied.push(Match { entry: at, request });
                    },
                    Step::Skip => {},
                    Step::Stop => {
                        proof {
                            lemma_stopped_scan_reads_no_more(start, listing, at + 1);
                        }
                        break;
                    },
                }
                at += 1;
                proof {
                    if at == entries.len() {
                        assert(listing.take(at as int) == listing);
                    }
                }
            }
            Report { applied, result: scan.finish() }
        },
    }
}

} // verus!
