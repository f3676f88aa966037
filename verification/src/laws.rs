//! What holds of every scan by name, stated over the model of a scan and
//! proved from it.

use crate::error::ErrorView;
use crate::listing::{Directory, EntryView};
use crate::names::{lemma_consumed_request, report_by_name, NameScanView};
use crate::scan::{first_equal, lemma_first_equal, Match, ReportView, Step};
use vstd::prelude::*;

verus! {

/// How many of the first `upto` texts equal `wanted`.
pub open spec fn count_equal(texts: Seq<Seq<char>>, wanted: Seq<char>, upto: int) -> nat
    decreases upto,
{
    if upto <= 0 {
        0
    } else if texts[upto - 1] == wanted {
        count_equal(texts, wanted, upto - 1) + 1
    } else {
        count_equal(texts, wanted, upto - 1)
    }
}

/// How many earlier requests bear the same name as the request at `at`: 0
/// for the first request of a name, 1 for its first repetition, and so on.
pub open spec fn rank(names: Seq<Seq<char>>, at: int) -> nat {
    count_equal(names, names[at], at)
}

/// How many of `entries` bear `name`.
pub open spec fn occurrences(entries: Seq<EntryView>, name: Seq<char>) -> nat
    decreases entries.len(),
{
    if entries.len() == 0 {
        0
    } else if entries.last().bears(name) {
        occurrences(entries.drop_last(), name) + 1
    } else {
        occurrences(entries.drop_last(), name)
    }
}

/// Whether an entry of the listing bears `name`.
pub open spec fn present(entries: Seq<EntryView>, name: Seq<char>) -> bool {
    exists|e: int| 0 <= e < entries.len() && (#[trigger] entries[e]).bears(name)
}

/// The requests that `result` reports as missing.
pub open spec fn missing(result: Result<(), ErrorView>) -> Seq<usize> {
    match result {
        Err(ErrorView::MissingFiles(indexes)) => indexes,
        _ => Seq::empty(),
    }
}

/// Whether a scan by name runs through `entries` without stopping: it does
/// if unreadable entries are passed over, or if there are none.
pub open spec fn runs_through(entries: Seq<EntryView>, ignore_fail: bool) -> bool {
    ignore_fail || forall|e: int| 0 <= e < entries.len() ==> (#[trigger] entries[e]).is_named()
}

/// A request is pending exactly when the entries seen so far that bear its
/// name are no more than the earlier requests of that name.
pub open spec fn pending_by_rank(state: NameScanView, seen: Seq<EntryView>) -> bool {
    forall|i: usize|
        i < state.names.len() ==> (#[trigger] state.pending.contains(i) <==> occurrences(
            seen,
            state.names[i as int],
        ) <= rank(state.names, i as int))
}

/// The count of equal texts does not fall as more texts are counted.
proof fn lemma_count_equal_grows(texts: Seq<Seq<char>>, wanted: Seq<char>, from: int, upto: int)
    requires
        from <= upto,
    ensures
        count_equal(texts, wanted, from) <= count_equal(texts, wanted, upto),
    decreases upto - from,
{
    if from < upto {
        lemma_count_equal_grows(texts, wanted, from, upto - 1);
    }
}

/// Among the requests of one name, a later one has a higher rank.
pub proof fn lemma_rank_increases(names: Seq<Seq<char>>, lower: int, upper: int)
    requires
        0 <= lower < upper,
        names[lower] == names[upper],
    ensures
        rank(names, lower) < rank(names, upper),
{
    lemma_count_equal_grows(names, names[upper], lower + 1, upper);
}

/// If more than `r` of the first `upto` names equal `wanted`, one of them
/// has exactly `r` equal names before it.
proof fn lemma_request_of_rank(
    names: Seq<Seq<char>>,
    wanted: Seq<char>,
    upto: int,
    r: nat,
) -> (at: int)
    requires
        r < count_equal(names, wanted, upto),
    ensures
        0 <= at < upto,
        names[at] == wanted,
        count_equal(names, wanted, at) == r,
    decreases upto,
{
    if names[upto - 1] == wanted && count_equal(names, wanted, upto - 1) == r {
        upto - 1
    } else {
        lemma_request_of_rank(names, wanted, upto - 1, r)
    }
}

/// One entry keeps `pending_by_rank`: an entry that bears a name consumes
/// the pending request of that name whose rank is the number of entries of
/// the name seen before it.
proof fn lemma_step_keeps_ranking(state: NameScanView, seen: Seq<EntryView>, entry: EntryView)
    requires
        state.fault is None,
        state.well_formed(),
        pending_by_rank(state, seen),
        state.ignore_fail || entry.is_named(),
    ensures
        state.after(entry).fault is None,
        state.after(entry).well_formed(),
        state.after(entry).names == state.names,
        state.after(entry).ignore_fail == state.ignore_fail,
        pending_by_rank(state.after(entry), seen.push(entry)),
        state.step(entry) matches Step::Apply(request) ==> rank(state.names, request as int)
            == occurrences(seen, state.names[request as int]),
{
    let names = state.names;
    let pending = state.pending;
    let all = seen.push(entry);
    assert(all.drop_last() == seen);
    assert(all.last() == entry);
    match entry {
        EntryView::Listed { name: Some(text), .. } => {
            let texts = state.pending_names();
            let at = first_equal(texts, text, 0);
            lemma_first_equal(texts, text, 0);
            if at < pending.len() {
                let taken = pending[at];
                let rest = pending.remove(at);
                lemma_consumed_request(state, at);
                let seen_count = occurrences(seen, text);
                assert(texts[at] == names[taken as int]);
                assert(pending.contains(taken));
                assert(seen_count <= rank(names, taken as int));
                if seen_count < rank(names, taken as int) {
                    let earlier = lemma_request_of_rank(names, text, taken as int, seen_count);
                    assert(rank(names, earlier) == seen_count);
                    assert(pending.contains(earlier as usize));
                    let p = choose|p: int| 0 <= p < pending.len() && pending[p] == earlier as usize;
                    if p > at {
                        assert(pending[at] < pending[p]);
                    }
                    assert(p < at);
                    assert(texts[p] == text);
                    assert(false);
                }
                assert forall|i: usize| i < names.len() implies (#[trigger] rest.contains(i)
                    <==> occurrences(all, names[i as int]) <= rank(names, i as int)) by {
                    if names[i as int] == text {
                        if rest.contains(i) {
                            let q = choose|q: int| 0 <= q < rest.len() && rest[q] == i;
                            let p = if q < at {
                                q
                            } else {
                                q + 1
                            };
                            assert(pending[p] == i);
                            assert(texts[p] == text);
                            assert(p > at);
                            assert(pending[at] < pending[p]);
                            lemma_rank_increases(names, taken as int, i as int);
                        }
                        if seen_count + 1 <= rank(names, i as int) {
                            assert(pending.contains(i));
                            let p = choose|p: int| 0 <= p < pending.len() && pending[p] == i;
                            let q = if p < at {
                                p
                            } else {
                                p - 1
                            };
                            assert(rest[q] == i);
                        }
                    } else {
                        if rest.contains(i) {
                            let q = choose|q: int| 0 <= q < rest.len() && rest[q] == i;
                            let p = if q < at {
                                q
                            } else {
                                q + 1
                            };
                            assert(pending[p] == i);
                        }
                        if pending.contains(i) {
                            let p = choose|p: int| 0 <= p < pending.len() && pending[p] == i;
                            let q = if p < at {
                                p
                            } else {
                                p - 1
                            };
                            assert(rest[q] == i);
                        }
                    }
                }
            } else {
                assert forall|i: usize| i < names.len() implies (#[trigger] pending.contains(i)
                    <==> occurrences(all, names[i as int]) <= rank(names, i as int)) by {
                    if names[i as int] == text && pending.contains(i) {
                        let p = choose|p: int| 0 <= p < pending.len() && pending[p] == i;
                        assert(texts[p] == text);
                    }
                }
            }
        },
        _ => {
            assert forall|i: usize| i < names.len() implies (#[trigger] pending.contains(i)
                <==> occurrences(all, names[i as int]) <= rank(names, i as int)) by {}
        },
    }
}

/// After a scan that runs through the listing, a request is pending exactly
/// when its rank among the requests of its name is at least the number of
/// entries that bear the name: the first entries of a name consume its first
/// requests, and what is left over is pending, in increasing order.
pub proof fn lemma_pending_after_scan(
    names: Seq<Seq<char>>,
    entries: Seq<EntryView>,
    ignore_fail: bool,
)
    requires
        names.len() <= usize::MAX,
        runs_through(entries, ignore_fail),
    ensures
        ({
            let end = NameScanView::start(names, ignore_fail).run(entries);
            &&& end.fault is None
            &&& end.names == names
            &&& end.ignore_fail == ignore_fail
            &&& end.well_formed()
            &&& pending_by_rank(end, entries)
        }),
    decreases entries.len(),
{
    let start = NameScanView::start(names, ignore_fail);
    if entries.len() == 0 {
        assert forall|i: usize| i < names.len() implies #[trigger] start.pending.contains(i) by {
            assert(start.pending[i as int] == i);
        }
    } else {
        let earlier = entries.drop_last();
        lemma_pending_after_scan(names, earlier, ignore_fail);
        assert(ignore_fail || entries[entries.len() - 1].is_named());
        lemma_step_keeps_ranking(start.run(earlier), earlier, entries.last());
        assert(earlier.push(entries.last()) == entries);
    }
}

/// The requests that the matches consumed, in the order of the matches.
pub open spec fn requests_of(applied: Seq<Match>) -> Seq<usize> {
    Seq::new(applied.len(), |k: int| applied[k].request)
}

/// The entries of a listing that were inspected and have a name that is
/// valid text, in their order.
pub open spec fn named_only(entries: Seq<EntryView>) -> Seq<EntryView> {
    entries.filter(is_named())
}

/// The test that `named_only` keeps an entry by.
pub open spec fn is_named() -> spec_fn(EntryView) -> bool {
    |entry: EntryView| entry.is_named()
}

/// Every match pairs an entry of the listing with a request of the same
/// name, the matches follow the order of the listing, and no request is
/// matched twice.
pub open spec fn pairs_by_name(
    names: Seq<Seq<char>>,
    entries: Seq<EntryView>,
    applied: Seq<Match>,
) -> bool {
    &&& forall|k: int|
        0 <= k < applied.len() ==> {
            let found = #[trigger] applied[k];
            &&& found.entry < entries.len()
            &&& found.request < names.len()
            &&& entries[found.entry as int].bears(names[found.request as int])
        }
    &&& forall|j: int, k: int|
        0 <= j < k < applied.len() ==> {
            &&& (#[trigger] applied[j]).entry < (#[trigger] applied[k]).entry
            &&& applied[j].request != applied[k].request
        }
}

/// Whatever the listing holds, a scan by name keeps its books: each match
/// takes exactly one request out of the pending ones, so matches and pending
/// requests together are as many as the names requested, and a request that
/// was matched is pending no more.
pub proof fn lemma_matches_by_name(
    names: Seq<Seq<char>>,
    entries: Seq<EntryView>,
    ignore_fail: bool,
)
    requires
        names.len() <= usize::MAX,
        entries.len() <= usize::MAX,
    ensures
        ({
            let start = NameScanView::start(names, ignore_fail);
            let end = start.run(entries);
            let applied = start.applied(entries);
            &&& end.names == names
            &&& end.ignore_fail == ignore_fail
            &&& end.well_formed()
            &&& applied.len() + end.pending.len() == names.len()
            &&& pairs_by_name(names, entries, applied)
            &&& forall|k: int|
                0 <= k < applied.len() ==> !end.pending.contains((#[trigger] applied[k]).request)
        }),
    decreases entries.len(),
{
    let start = NameScanView::start(names, ignore_fail);
    if entries.len() > 0 {
        let earlier = entries.drop_last();
        let last = entries.last();
        lemma_matches_by_name(names, earlier, ignore_fail);
        let before = start.run(earlier);
        let sofar = start.applied(earlier);
        let end = before.after(last);
        let applied = start.applied(entries);
        assert forall|k: int| 0 <= k < sofar.len() implies entries[(#[trigger] sofar[k]).entry as int]
            == earlier[sofar[k].entry as int] by {}
        match before.step(last) {
            Step::Apply(request) => {
                let texts = before.pending_names();
                let text = last->name->0;
                let at = first_equal(texts, text, 0);
                lemma_first_equal(texts, text, 0);
                lemma_consumed_request(before, at);
                let rest = before.pending.remove(at);
                assert(texts[at] == names[request as int]);
                assert(before.pending.contains(request));
                assert(applied == sofar.push(Match { entry: (entries.len() - 1) as usize, request }));
                assert forall|k: int| 0 <= k < applied.len() implies !rest.contains(
                    (#[trigger] applied[k]).request,
                ) by {
                    if rest.contains(applied[k].request) {
                        let q = choose|q: int| 0 <= q < rest.len() && rest[q] == applied[k].request;
                        let p = if q < at {
                            q
                        } else {
                            q + 1
                        };
                        assert(before.pending[p] == applied[k].request);
                        if k < sofar.len() {
                            assert(applied[k] == sofar[k]);
                            assert(before.pending.contains(sofar[k].request));
                        } else {
                            if p < at {
                                assert(before.pending[p] < before.pending[at]);
                            } else {
                                assert(before.pending[at] < before.pending[p]);
                            }
                        }
                    }
                }
                assert forall|j: int, k: int| 0 <= j < k < applied.len() implies {
                    &&& (#[trigger] applied[j]).entry < (#[trigger] applied[k]).entry
                    &&& applied[j].request != applied[k].request
                } by {
                    assert(applied[j] == sofar[j]);
                    if k < sofar.len() {
                        assert(applied[k] == sofar[k]);
                    }
                }
                assert forall|k: int| 0 <= k < applied.len() implies {
                    let found = #[trigger] applied[k];
                    &&& found.entry < entries.len()
                    &&& found.request < names.len()
                    &&& entries[found.entry as int].bears(names[found.request as int])
                } by {
                    if k < sofar.len() {
                        assert(applied[k] == sofar[k]);
                    }
                }
            },
            _ => {
                assert(applied == sofar);
                assert(end.pending == before.pending);
            },
        }
    } else {
        assert(start.pending.len() == names.len());
    }
}

/// Unreadable entries aside, a scan that passes them over goes through the
/// same states as a scan of the readable entries alone.
pub proof fn lemma_run_of_named_only(names: Seq<Seq<char>>, entries: Seq<EntryView>)
    ensures
        ({
            let start = NameScanView::start(names, true);
            &&& start.run(entries) == start.run(named_only(entries))
            &&& start.run(entries).fault is None
            &&& requests_of(start.applied(entries)) == requests_of(
                start.applied(named_only(entries)),
            )
        }),
    decreases entries.len(),
{
    reveal(Seq::filter);
    let start = NameScanView::start(names, true);
    if entries.len() > 0 {
        let earlier = entries.drop_last();
        let last = entries.last();
        lemma_run_of_named_only(names, earlier);
        lemma_flags_stay(names, earlier, true);
        if last.is_named() {
            let kept = named_only(earlier).push(last);
            assert(named_only(entries) == kept);
            assert(kept.drop_last() == named_only(earlier));
            assert(kept.last() == last);
            let sofar = start.applied(earlier);
            let kept_sofar = start.applied(named_only(earlier));
            match start.run(earlier).step(last) {
                Step::Apply(request) => {
                    let here = Match { entry: (entries.len() - 1) as usize, request };
                    let there = Match { entry: (kept.len() - 1) as usize, request };
                    assert(start.applied(entries) == sofar.push(here));
                    assert(start.applied(kept) == kept_sofar.push(there));
                    assert(requests_of(sofar.push(here)) =~= requests_of(sofar).push(request));
                    assert(requests_of(kept_sofar.push(there)) =~= requests_of(kept_sofar).push(
                        request,
                    ));
                },
                _ => {
                    assert(start.applied(entries) == sofar);
                    assert(start.applied(kept) == kept_sofar);
                },
            }
        } else {
            assert(named_only(entries) == named_only(earlier));
            assert(start.applied(entries) == start.applied(earlier));
        }
    }
}

/// A scan keeps the names and the flag that it was started with.
pub proof fn lemma_flags_stay(names: Seq<Seq<char>>, entries: Seq<EntryView>, ignore_fail: bool)
    ensures
        NameScanView::start(names, ignore_fail).run(entries).names == names,
        NameScanView::start(names, ignore_fail).run(entries).ignore_fail == ignore_fail,
    decreases entries.len(),
{
    if entries.len() > 0 {
        lemma_flags_stay(names, entries.drop_last(), ignore_fail);
    }
}

/// On a listing whose entries are all readable and named, it makes no
/// difference whether unreadable entries would be passed over.
pub proof fn lemma_flag_is_idle_on_named(names: Seq<Seq<char>>, entries: Seq<EntryView>)
    requires
        runs_through(entries, false),
    ensures
        ({
            let strict = NameScanView::start(names, false);
            let lenient = NameScanView::start(names, true);
            &&& strict.run(entries).pending == lenient.run(entries).pending
            &&& strict.run(entries).fault is None
            &&& lenient.run(entries).fault is None
            &&& strict.applied(entries) == lenient.applied(entries)
            &&& strict.run(entries).outcome() == lenient.run(entries).outcome()
        }),
    decreases entries.len(),
{
    if entries.len() > 0 {
        let earlier = entries.drop_last();
        assert(entries[entries.len() - 1].is_named());
        assert forall|e: int| 0 <= e < earlier.len() implies (#[trigger] earlier[e]).is_named() by {
            assert(earlier[e] == entries[e]);
        }
        lemma_flag_is_idle_on_named(names, earlier);
        lemma_flags_stay(names, earlier, false);
        lemma_flags_stay(names, earlier, true);
        let strict = NameScanView::start(names, false).run(earlier);
        let lenient = NameScanView::start(names, true).run(earlier);
        assert(strict.pending_names() == lenient.pending_names());
    }
}

/// Every match consumes the request whose rank among the requests of its
/// name is the number of earlier entries that bear the name: the first entry
/// of a name takes the first request of it, the second entry the second.
pub open spec fn matched_in_turn(
    names: Seq<Seq<char>>,
    entries: Seq<EntryView>,
    applied: Seq<Match>,
) -> bool {
    forall|k: int|
        0 <= k < applied.len() ==> {
            let found = #[trigger] applied[k];
            rank(names, found.request as int) == occurrences(
                entries.take(found.entry as int),
                names[found.request as int],
            )
        }
}

/// The matches of a scan that runs through the listing are `matched_in_turn`.
proof fn lemma_matched_in_turn(names: Seq<Seq<char>>, entries: Seq<EntryView>, ignore_fail: bool)
    requires
        names.len() <= usize::MAX,
        entries.len() <= usize::MAX,
        runs_through(entries, ignore_fail),
    ensures
        matched_in_turn(
            names,
            entries,
            NameScanView::start(names, ignore_fail).applied(entries),
        ),
    decreases entries.len(),
{
    let start = NameScanView::start(names, ignore_fail);
    if entries.len() > 0 {
        let earlier = entries.drop_last();
        let last = entries.last();
        assert(ignore_fail || entries[entries.len() - 1].is_named());
        assert forall|e: int| 0 <= e < earlier.len() implies ignore_fail || (
        #[trigger] earlier[e]).is_named() by {
            assert(earlier[e] == entries[e]);
        }
        lemma_matched_in_turn(names, earlier, ignore_fail);
        lemma_matches_by_name(names, earlier, ignore_fail);
        lemma_pending_after_scan(names, earlier, ignore_fail);
        lemma_step_keeps_ranking(start.run(earlier), earlier, last);
        let sofar = start.applied(earlier);
        let applied = start.applied(entries);
        assert forall|k: int| 0 <= k < applied.len() implies {
            let found = #[trigger] applied[k];
            rank(names, found.request as int) == occurrences(
                entries.take(found.entry as int),
                names[found.request as int],
            )
        } by {
            if k < sofar.len() {
                assert(applied[k] == sofar[k]);
                assert(entries.take(sofar[k].entry as int) == earlier.take(sofar[k].entry as int));
            } else {
                assert(entries.take(entries.len() - 1) == earlier);
            }
        }
    }
}

/// A text that none of the first `upto` texts equals is counted 0 times.
proof fn lemma_count_of_unrequested(texts: Seq<Seq<char>>, wanted: Seq<char>, upto: int)
    requires
        forall|j: int| 0 <= j < upto ==> texts[j] != wanted,
    ensures
        count_equal(texts, wanted, upto) == 0,
    decreases upto,
{
    if upto > 0 {
        lemma_count_of_unrequested(texts, wanted, upto - 1);
    }
}

/// A name that an entry bears occurs at least once.
proof fn lemma_occurrences_of_present(entries: Seq<EntryView>, name: Seq<char>, at: int)
    requires
        0 <= at < entries.len(),
        entries[at].bears(name),
    ensures
        occurrences(entries, name) >= 1,
    decreases entries.len(),
{
    if at < entries.len() - 1 {
        lemma_occurrences_of_present(entries.drop_last(), name, at);
    }
}

/// A directory that does not exist is reported as missing, and no entry is
/// matched, whatever the listing, the names and the flag are.
pub proof fn lemma_missing_directory_by_name(
    directory: Directory,
    entries: Seq<EntryView>,
    names: Seq<Seq<char>>,
    ignore_fail: bool,
)
    requires
        directory.is_text,
        !directory.exists,
    ensures
        report_by_name(directory, entries, names, ignore_fail) == (ReportView {
            applied: Seq::empty(),
            result: Err(ErrorView::DirectoryDoesNotExist(directory.path)),
        }),
{
}

/// A scan for no names at all succeeds and matches nothing, provided that
/// the directory can be listed and the scan runs through the listing.
pub proof fn lemma_empty_request_succeeds(
    directory: Directory,
    entries: Seq<EntryView>,
    ignore_fail: bool,
)
    requires
        directory.verdict() is Ok,
        entries.len() <= usize::MAX,
        runs_through(entries, ignore_fail),
    ensures
        report_by_name(directory, entries, Seq::empty(), ignore_fail) == (ReportView {
            applied: Seq::empty(),
            result: Ok(()),
        }),
{
    let names = Seq::<Seq<char>>::empty();
    lemma_matches_by_name(names, entries, ignore_fail);
    lemma_pending_after_scan(names, entries, ignore_fail);
    assert(NameScanView::start(names, ignore_fail).applied(entries) =~= Seq::empty());
}

/// A name that is requested several times needs as many entries. Of a scan
/// that runs through the listing of a directory that can be listed:
/// the result is success or the list of the missing requests, never another
/// error; the list increases strictly; a request is on it exactly when the
/// entries that bear its name are no more than the earlier requests of that
/// name; every match consumed one request, and the entries of a name
/// consumed its requests in turn.
pub proof fn lemma_duplicate_requests(
    directory: Directory,
    entries: Seq<EntryView>,
    names: Seq<Seq<char>>,
    ignore_fail: bool,
)
    requires
        directory.verdict() is Ok,
        names.len() <= usize::MAX,
        entries.len() <= usize::MAX,
        runs_through(entries, ignore_fail),
    ensures
        ({
            let report = report_by_name(directory, entries, names, ignore_fail);
            let left = missing(report.result);
            &&& report.result == (if left.len() == 0 {
                Ok(())
            } else {
                Err(ErrorView::MissingFiles(left))
            })
            &&& forall|j: int, k: int| 0 <= j < k < left.len() ==> left[j] < left[k]
            &&& forall|i: usize|
                i < names.len() ==> (#[trigger] left.contains(i) <==> occurrences(
                    entries,
                    names[i as int],
                ) <= rank(names, i as int))
            &&& forall|p: int| 0 <= p < left.len() ==> left[p] < names.len()
            &&& report.applied.len() + left.len() == names.len()
            &&& pairs_by_name(names, entries, report.applied)
            &&& matched_in_turn(names, entries, report.applied)
        }),
{
    lemma_matches_by_name(names, entries, ignore_fail);
    lemma_pending_after_scan(names, entries, ignore_fail);
    lemma_matched_in_turn(names, entries, ignore_fail);
    let end = NameScanView::start(names, ignore_fail).run(entries);
    let report = report_by_name(directory, entries, names, ignore_fail);
    assert(missing(report.result) =~= end.pending);
}

/// Where the requested names differ from one another and each is borne by
/// an entry of the listing, a scan that runs through the listing succeeds
/// with exactly one match for each name.
pub proof fn lemma_distinct_names_all_present(
    directory: Directory,
    entries: Seq<EntryView>,
    names: Seq<Seq<char>>,
    ignore_fail: bool,
)
    requires
        directory.verdict() is Ok,
        names.len() <= usize::MAX,
        entries.len() <= usize::MAX,
        runs_through(entries, ignore_fail),
        forall|i: int, j: int| 0 <= i < j < names.len() ==> names[i] != names[j],
        forall|i: int| 0 <= i < names.len() ==> present(entries, #[trigger] names[i]),
    ensures
        report_by_name(directory, entries, names, ignore_fail).result == Ok::<(), ErrorView>(()),
        report_by_name(directory, entries, names, ignore_fail).applied.len() == names.len(),
{
    lemma_matches_by_name(names, entries, ignore_fail);
    lemma_pending_after_scan(names, entries, ignore_fail);
    let end = NameScanView::start(names, ignore_fail).run(entries);
    if end.pending.len() > 0 {
        let first = end.pending[0];
        assert(end.pending.contains(first));
        lemma_count_of_unrequested(names, names[first as int], first as int);
        assert(present(entries, names[first as int]));
        let e = choose|e: int| 0 <= e < entries.len() && (#[trigger] entries[e]).bears(
            names[first as int],
        );
        lemma_occurrences_of_present(entries, names[first as int], e);
        assert(false);
    }
}

/// A scan that passes unreadable entries over never ends with the error of
/// an unreadable entry or of a name that is not valid text. It ends as a
/// strict scan of the readable entries alone does, and consumes the same
/// requests in the same order: what was passed over changes the result only
/// by not being there to match.
pub proof fn lemma_passed_over_entries_by_name(
    directory: Directory,
    entries: Seq<EntryView>,
    names: Seq<Seq<char>>,
)
    ensures
        ({
            let lenient = report_by_name(directory, entries, names, true);
            let clean = report_by_name(directory, named_only(entries), names, false);
            &&& lenient.result != Err::<(), ErrorView>(ErrorView::CouldNotOpenEntry)
            &&& lenient.result != Err::<(), ErrorView>(ErrorView::InvalidUnicodeData)
            &&& lenient.result == clean.result
            &&& requests_of(lenient.applied) == requests_of(clean.applied)
        }),
{
    let kept = named_only(entries);
    assert forall|e: int| 0 <= e < kept.len() implies (#[trigger] kept[e]).is_named() by {
        entries.lemma_filter_pred(is_named(), e);
    }
    lemma_run_of_named_only(names, entries);
    lemma_flag_is_idle_on_named(names, kept);
}

} // verus!
