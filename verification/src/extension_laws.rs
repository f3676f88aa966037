//! What holds of every scan by extension, stated over the model of a scan
//! and proved from it.

use crate::error::ErrorView;
use crate::extensions::{report_by_extension, ExtensionScanView};
use crate::laws::requests_of;
use crate::listing::{Directory, EntryView, ExtensionView};
use crate::scan::{first_equal, lemma_first_equal, Match, ReportView, Step};
use vstd::prelude::*;

verus! {

/// Whether the extension of `entry` is valid text and one of `extensions`,
/// character for character.
pub open spec fn wanted(extensions: Seq<Seq<char>>, entry: EntryView) -> bool {
    exists|r: int| 0 <= r < extensions.len() && entry.ends_in(#[trigger] extensions[r])
}

/// Whether one of the matches is for the entry at `at`.
pub open spec fn applied_to(applied: Seq<Match>, at: int) -> bool {
    exists|k: int| 0 <= k < applied.len() && (#[trigger] applied[k]).entry == at
}

/// Whether a scan by extension reads through `entries` without stopping: it
/// does if unreadable entries are passed over, or if there are none.
pub open spec fn reads_through(entries: Seq<EntryView>, ignore_fail: bool) -> bool {
    ignore_fail || forall|e: int| 0 <= e < entries.len() ==> (#[trigger] entries[e]).is_listed()
}

/// The entries of a listing that were inspected, in their order.
pub open spec fn listed_only(entries: Seq<EntryView>) -> Seq<EntryView> {
    entries.filter(is_listed())
}

/// The test that `listed_only` keeps an entry by.
pub open spec fn is_listed() -> spec_fn(EntryView) -> bool {
    |entry: EntryView| entry.is_listed()
}

/// Every match pairs an entry of the listing with the first request that
/// equals its extension, and the matches follow the order of the listing.
pub open spec fn pairs_by_extension(
    extensions: Seq<Seq<char>>,
    entries: Seq<EntryView>,
    applied: Seq<Match>,
) -> bool {
    &&& forall|k: int|
        0 <= k < applied.len() ==> {
            let found = #[trigger] applied[k];
            &&& found.entry < entries.len()
            &&& found.request < extensions.len()
            &&& entries[found.entry as int].ends_in(extensions[found.request as int])
            &&& first_equal(extensions, extensions[found.request as int], 0) == found.request
        }
    &&& forall|j: int, k: int|
        0 <= j < k < applied.len() ==> (#[trigger] applied[j]).entry < (#[trigger] applied[k]).entry
}

/// Matching by extension is exact: a scan that has not stopped matches an
/// entry exactly when the text of its extension equals a requested
/// extension character for character, so `TXT` does not match `txt`; and
/// the match names the first request that equals it.
pub proof fn lemma_extension_match_is_exact(state: ExtensionScanView, entry: EntryView)
    requires
        state.extensions.len() <= usize::MAX,
    ensures
        state.step(entry) is Apply <==> !state.stopped && wanted(state.extensions, entry),
        state.step(entry) matches Step::Apply(request) ==> {
            &&& request < state.extensions.len()
            &&& entry.ends_in(state.extensions[request as int])
            &&& first_equal(state.extensions, state.extensions[request as int], 0) == request
        },
        !state.stopped && !wanted(state.extensions, entry) && (state.ignore_fail
            || entry.is_listed()) ==> state.step(entry) == Step::Skip,
{
    match entry {
        EntryView::Listed { extension: ExtensionView::Text(text), .. } => {
            lemma_first_equal(state.extensions, text, 0);
            let at = first_equal(state.extensions, text, 0);
            if at < state.extensions.len() {
                assert(entry.ends_in(state.extensions[at]));
            }
        },
        _ => {},
    }
}

/// Whatever the listing holds, the matches of a scan by extension pair
/// entries with requests of their extension, in the order of the listing;
/// the scan stops exactly when it meets an unreadable entry that it may not
/// pass over; and a scan that reads through the listing matches every entry
/// whose extension is requested.
pub proof fn lemma_matches_by_extension(
    extensions: Seq<Seq<char>>,
    entries: Seq<EntryView>,
    ignore_fail: bool,
)
    requires
        extensions.len() <= usize::MAX,
        entries.len() <= usize::MAX,
    ensures
        ({
            let start = ExtensionScanView::start(extensions, ignore_fail);
            let end = start.run(entries);
            let applied = start.applied(entries);
            &&& end.extensions == extensions
            &&& end.ignore_fail == ignore_fail
            &&& end.stopped <==> !reads_through(entries, ignore_fail)
            &&& pairs_by_extension(extensions, entries, applied)
            &&& reads_through(entries, ignore_fail) ==> forall|e: int|
                0 <= e < entries.len() ==> (#[trigger] applied_to(applied, e) <==> wanted(
                    extensions,
                    entries[e],
                ))
        }),
    decreases entries.len(),
{
    let start = ExtensionScanView::start(extensions, ignore_fail);
    if entries.len() > 0 {
        let earlier = entries.drop_last();
        let last = entries.last();
        lemma_matches_by_extension(extensions, earlier, ignore_fail);
        let before = start.run(earlier);
        let sofar = start.applied(earlier);
        let end = before.after(last);
        let applied = start.applied(entries);
        lemma_extension_match_is_exact(before, last);
        assert forall|e: int| 0 <= e < earlier.len() implies #[trigger] earlier[e] == entries[e] by {}
        if reads_through(entries, ignore_fail) {
            assert(reads_through(earlier, ignore_fail)) by {
                if !ignore_fail {
                    assert forall|e: int| 0 <= e < earlier.len() implies (
                    #[trigger] earlier[e]).is_listed() by {
                        assert(entries[e].is_listed());
                    }
                }
            }
            assert(ignore_fail || entries[entries.len() - 1].is_listed());
        } else {
            if reads_through(earlier, ignore_fail) {
                assert(!last.is_listed()) by {
                    if last.is_listed() {
                        assert forall|e: int| 0 <= e < entries.len() implies (
                        #[trigger] entries[e]).is_listed() by {
                            if e < earlier.len() {
                                assert(earlier[e].is_listed());
                            }
                        }
                    }
                }
            }
        }
        match before.step(last) {
            Step::Apply(request) => {
                let here = Match { entry: (entries.len() - 1) as usize, request };
                assert(applied == sofar.push(here));
                assert forall|k: int| 0 <= k < applied.len() implies {
                    let found = #[trigger] applied[k];
                    &&& found.entry < entries.len()
                    &&& found.request < extensions.len()
                    &&& entries[found.entry as int].ends_in(extensions[found.request as int])
                    &&& first_equal(extensions, extensions[found.request as int], 0)
                        == found.request
                } by {
                    if k < sofar.len() {
                        assert(applied[k] == sofar[k]);
                    }
                }
                assert forall|j: int, k: int| 0 <= j < k < applied.len() implies (
                #[trigger] applied[j]).entry < (#[trigger] applied[k]).entry by {
                    assert(applied[j] == sofar[j]);
                    if k < sofar.len() {
                        assert(applied[k] == sofar[k]);
                    }
                }
                if reads_through(entries, ignore_fail) {
                    assert forall|e: int| 0 <= e < entries.len() implies (#[trigger] applied_to(
                        applied,
                        e,
                    ) <==> wanted(extensions, entries[e])) by {
                        if e < earlier.len() {
                            if applied_to(sofar, e) {
                                let k = choose|k: int|
                                    0 <= k < sofar.len() && (#[trigger] sofar[k]).entry == e;
                                assert(applied[k] == sofar[k]);
                            }
                            if applied_to(applied, e) {
                                let k = choose|k: int|
                                    0 <= k < applied.len() && (#[trigger] applied[k]).entry == e;
                                assert(k < sofar.len());
                                assert(applied[k] == sofar[k]);
                            }
                        } else {
                            assert(applied[sofar.len() as int] == here);
                        }
                    }
                }
            },
            _ => {
                assert(applied == sofar);
                if reads_through(entries, ignore_fail) {
                    assert forall|e: int| 0 <= e < entries.len() implies (#[trigger] applied_to(
                        applied,
                        e,
                    ) <==> wanted(extensions, entries[e])) by {
                        if e == earlier.len() && applied_to(applied, e) {
                            let k = choose|k: int|
                                0 <= k < applied.len() && (#[trigger] applied[k]).entry == e;
                            assert(sofar[k].entry < earlier.len());
                        }
                    }
                }
            },
        }
    }
}

/// A directory that does not exist is reported as missing, and no entry is
/// matched, whatever the listing, the extensions and the flag are.
pub proof fn lemma_missing_directory_by_extension(
    directory: Directory,
    entries: Seq<EntryView>,
    extensions: Seq<Seq<char>>,
    ignore_fail: bool,
)
    requires
        directory.is_text,
        !directory.exists,
    ensures
        report_by_extension(directory, entries, extensions, ignore_fail) == (ReportView {
            applied: Seq::empty(),
            result: Err(ErrorView::DirectoryDoesNotExist(directory.path)),
        }),
{
}

/// A scan by extension that reads through the listing of a directory that
/// can be listed succeeds, and its matches are exactly the entries whose
/// extension is requested, each once and in the order of the listing.
pub proof fn lemma_scan_by_extension(
    directory: Directory,
    entries: Seq<EntryView>,
    extensions: Seq<Seq<char>>,
    ignore_fail: bool,
)
    requires
        directory.verdict() is Ok,
        extensions.len() <= usize::MAX,
        entries.len() <= usize::MAX,
        reads_through(entries, ignore_fail),
    ensures
        ({
            let report = report_by_extension(directory, entries, extensions, ignore_fail);
            &&& report.result == Ok::<(), ErrorView>(())
            &&& pairs_by_extension(extensions, entries, report.applied)
            &&& forall|e: int|
                0 <= e < entries.len() ==> (#[trigger] applied_to(report.applied, e) <==> wanted(
                    extensions,
                    entries[e],
                ))
        }),
{
    lemma_matches_by_extension(extensions, entries, ignore_fail);
}

proof fn lemma_run_of_listed_only(extensions: Seq<Seq<char>>, entries: Seq<EntryView>)
    ensures
        ({
            let lenient = ExtensionScanView::start(extensions, true);
            let strict = ExtensionScanView::start(extensions, false);
            &&& lenient.run(entries) == lenient
            &&& strict.run(listed_only(entries)) == strict
            &&& requests_of(lenient.applied(entries)) == requests_of(
                strict.applied(listed_only(entries)),
            )
        }),
    decreases entries.len(),
{
    reveal(Seq::filter);
    let lenient = ExtensionScanView::start(extensions, true);
    let strict = ExtensionScanView::start(extensions, false);
    if entries.len() > 0 {
        let earlier = entries.drop_last();
        let last = entries.last();
        lemma_run_of_listed_only(extensions, earlier);
        let sofar = lenient.applied(earlier);
        let kept_sofar = strict.applied(listed_only(earlier));
        if last.is_listed() {
            let kept = listed_only(earlier).push(last);
            assert(listed_only(entries) == kept);
            assert(kept.drop_last() == listed_only(earlier));
            assert(kept.last() == last);
            match lenient.step(last) {
                Step::Apply(request) => {
                    let here = Match { entry: (entries.len() - 1) as usize, request };
                    let there = Match { entry: (kept.len() - 1) as usize, request };
                    assert(lenient.applied(entries) == sofar.push(here));
                    assert(strict.applied(kept) == kept_sofar.push(there));
                    assert(requests_of(sofar.push(here)) =~= requests_of(sofar).push(request));
                    assert(requests_of(kept_sofar.push(there)) =~= requests_of(kept_sofar).push(
                        request,
                    ));
                },
                _ => {
                    assert(lenient.applied(entries) == sofar);
                    assert(strict.applied(kept) == kept_sofar);
                },
            }
        } else {
            assert(listed_only(entries) == listed_only(earlier));
            assert(lenient.applied(entries) == sofar);
        }
    }
}

/// A scan by extension that passes unreadable entries over never ends with
/// the error of an unreadable entry. It succeeds, as a strict scan of the
/// readable entries alone does, and matches the same requests in the same
/// order.
pub proof fn lemma_passed_over_entries_by_extension(
    directory: Directory,
    entries: Seq<EntryView>,
    extensions: Seq<Seq<char>>,
)
    ensures
        ({
            let lenient = report_by_extension(directory, entries, extensions, true);
            let clean = report_by_extension(directory, listed_only(entries), extensions, false);
            &&& lenient.result != Err::<(), ErrorView>(ErrorView::CouldNotOpenEntry)
            &&& lenient.result != Err::<(), ErrorView>(ErrorView::InvalidUnicodeData)
            &&& lenient.result == clean.result
            &&& requests_of(lenient.applied) == requests_of(clean.applied)
        }),
{
    lemma_run_of_listed_only(extensions, entries);
}

} // verus!
