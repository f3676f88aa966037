use file_processor::{
    find_by_name, Directory, Entry, Error, Extension, Match, NameScan, Step,
};
use std::path::PathBuf;

fn file(name: &str) -> Entry {
    let extension = match name.rfind('.') {
        Some(dot) if dot > 0 => Extension::Text(name[dot + 1..].to_string()),
        _ => Extension::Absent,
    };
    Entry::Listed { name: Some(name.to_string()), extension }
}

fn nameless() -> Entry {
    Entry::Listed { name: None, extension: Extension::Absent }
}

fn existing(path: &str) -> Directory {
    Directory { path: PathBuf::from(path), is_text: true, exists: true }
}

fn names(list: &[&str]) -> Vec<String> {
    list.iter().map(|name| name.to_string()).collect()
}

fn missing(result: &Result<(), Error>) -> Option<Vec<usize>> {
    match result {
        Err(Error::MissingFiles(indexes)) => Some(indexes.clone()),
        _ => None,
    }
}

#[test]
fn missing_name_is_reported_by_its_position() {
    let entries = vec![file("report.csv")];
    let report = find_by_name(
        &existing("data"),
        &entries,
        names(&["report.csv", "summary.csv"]),
        false,
    );
    assert_eq!(report.applied, vec![Match { entry: 0, request: 0 }]);
    assert_eq!(missing(&report.result), Some(vec![1]));
}

#[test]
fn empty_request_succeeds_with_no_match() {
    let entries = vec![file("a.txt"), file("b.txt")];
    let report = find_by_name(&existing("data"), &entries, Vec::new(), false);
    assert!(report.applied.is_empty());
    assert!(matches!(report.result, Ok(())));

    let nothing: Vec<Entry> = Vec::new();
    let report = find_by_name(&existing("data"), &nothing, Vec::new(), true);
    assert!(report.applied.is_empty());
    assert!(matches!(report.result, Ok(())));
}

#[test]
fn empty_request_still_fails_on_an_unreadable_entry_when_strict() {
    let entries = vec![file("a.txt"), Entry::Unreadable];
    let report = find_by_name(&existing("data"), &entries, Vec::new(), false);
    assert!(report.applied.is_empty());
    assert!(matches!(report.result, Err(Error::CouldNotOpenEntry)));
}

#[test]
fn missing_directory_is_reported_before_any_entry() {
    let directory = Directory { path: PathBuf::from("gone"), is_text: true, exists: false };
    let entries = vec![Entry::Unreadable, file("a.txt")];
    let report = find_by_name(&directory, &entries, names(&["a.txt"]), false);
    assert!(report.applied.is_empty());
    match report.result {
        Err(Error::DirectoryDoesNotExist(path)) => assert_eq!(path, PathBuf::from("gone")),
        other => panic!("unexpected result: {:?}", other),
    }
}

#[test]
fn path_that_is_not_text_is_reported_first() {
    let directory = Directory { path: PathBuf::from("odd"), is_text: false, exists: false };
    let entries = vec![file("a.txt")];
    let report = find_by_name(&directory, &entries, names(&["a.txt"]), true);
    assert!(report.applied.is_empty());
    assert!(matches!(report.result, Err(Error::NullDirectory)));

    let directory = Directory { path: PathBuf::from("odd"), is_text: false, exists: true };
    assert!(matches!(directory.check(), Err(Error::NullDirectory)));
}

#[test]
fn directory_check_accepts_an_existing_directory() {
    assert!(matches!(existing("data").check(), Ok(())));
}

#[test]
fn duplicate_requests_need_as_many_entries() {
    let entries = vec![file("x"), file("y")];
    let report = find_by_name(&existing("data"), &entries, names(&["x", "y", "x"]), false);
    assert_eq!(
        report.applied,
        vec![Match { entry: 0, request: 0 }, Match { entry: 1, request: 1 }]
    );
    assert_eq!(missing(&report.result), Some(vec![2]));
}

#[test]
fn duplicate_requests_are_consumed_in_turn() {
    let entries = vec![file("x"), file("other"), file("x")];
    let report = find_by_name(&existing("data"), &entries, names(&["x", "x"]), false);
    assert_eq!(
        report.applied,
        vec![Match { entry: 0, request: 0 }, Match { entry: 2, request: 1 }]
    );
    assert!(matches!(report.result, Ok(())));
}

#[test]
fn entry_of_a_consumed_name_matches_nothing() {
    let entries = vec![file("x"), file("x")];
    let report = find_by_name(&existing("data"), &entries, names(&["x"]), false);
    assert_eq!(report.applied, vec![Match { entry: 0, request: 0 }]);
    assert!(matches!(report.result, Ok(())));
}

#[test]
fn distinct_names_all_present_all_match() {
    let entries = vec![file("c.log"), file("a.txt"), file("extra"), file("b.txt")];
    let report = find_by_name(
        &existing("data"),
        &entries,
        names(&["a.txt", "b.txt", "c.log"]),
        false,
    );
    assert_eq!(
        report.applied,
        vec![
            Match { entry: 0, request: 2 },
            Match { entry: 1, request: 0 },
            Match { entry: 3, request: 1 },
        ]
    );
    assert!(matches!(report.result, Ok(())));
}

#[test]
fn names_listed_in_request_order_all_match() {
    let entries = vec![file("a"), file("b")];
    let report = find_by_name(&existing("data"), &entries, names(&["a", "b"]), false);
    assert_eq!(
        report.applied,
        vec![Match { entry: 0, request: 0 }, Match { entry: 1, request: 1 }]
    );
    assert!(matches!(report.result, Ok(())));
}

#[test]
fn name_matching_is_exact() {
    let entries = vec![file("A.txt"), file("a.txt "), file("a.tx")];
    let report = find_by_name(&existing("data"), &entries, names(&["a.txt"]), false);
    assert!(report.applied.is_empty());
    assert_eq!(missing(&report.result), Some(vec![0]));
}

#[test]
fn strict_scan_stops_at_an_unreadable_entry() {
    let entries = vec![file("a"), Entry::Unreadable, file("b")];
    let report = find_by_name(&existing("data"), &entries, names(&["a", "b"]), false);
    assert_eq!(report.applied, vec![Match { entry: 0, request: 0 }]);
    assert!(matches!(report.result, Err(Error::CouldNotOpenEntry)));
}

#[test]
fn strict_scan_stops_at_a_name_that_is_not_text() {
    let entries = vec![nameless(), file("a")];
    let report = find_by_name(&existing("data"), &entries, names(&["a"]), false);
    assert!(report.applied.is_empty());
    assert!(matches!(report.result, Err(Error::InvalidUnicodeData)));
}

#[test]
fn lenient_scan_passes_unreadable_entries_over() {
    let entries = vec![Entry::Unreadable, file("a"), nameless(), file("b")];
    let report = find_by_name(&existing("data"), &entries, names(&["a", "b"]), true);
    assert_eq!(
        report.applied,
        vec![Match { entry: 1, request: 0 }, Match { entry: 3, request: 1 }]
    );
    assert!(matches!(report.result, Ok(())));
}

#[test]
fn lenient_scan_ends_as_a_strict_scan_of_the_readable_entries() {
    let all = vec![Entry::Unreadable, file("a"), nameless()];
    let readable = vec![file("a")];
    let lenient = find_by_name(&existing("data"), &all, names(&["a", "b"]), true);
    let clean = find_by_name(&existing("data"), &readable, names(&["a", "b"]), false);
    assert_eq!(missing(&lenient.result), Some(vec![1]));
    assert_eq!(missing(&clean.result), Some(vec![1]));
    let consumed: Vec<usize> = lenient.applied.iter().map(|found| found.request).collect();
    let expected: Vec<usize> = clean.applied.iter().map(|found| found.request).collect();
    assert_eq!(consumed, expected);
}

#[test]
fn scan_answers_each_entry_with_a_step() {
    let mut scan = NameScan::new(names(&["a", "b", "a"]), false);
    assert_eq!(scan.observe(&file("b")), Step::Apply(1));
    assert_eq!(scan.observe(&file("b")), Step::Skip);
    assert_eq!(scan.observe(&file("a")), Step::Apply(0));
    assert_eq!(scan.observe(&file("zzz")), Step::Skip);
    assert_eq!(scan.observe(&file("a")), Step::Apply(2));
    assert_eq!(scan.observe(&file("a")), Step::Skip);
    assert!(matches!(scan.finish(), Ok(())));
}

#[test]
fn stopped_scan_stays_stopped() {
    let mut scan = NameScan::new(names(&["a"]), false);
    assert_eq!(scan.observe(&nameless()), Step::Stop);
    assert_eq!(scan.observe(&file("a")), Step::Stop);
    assert_eq!(scan.observe(&Entry::Unreadable), Step::Stop);
    assert!(matches!(scan.finish(), Err(Error::InvalidUnicodeData)));
}

#[test]
fn scan_without_entries_reports_every_request() {
    let scan = NameScan::new(names(&["a", "b", "c"]), true);
    assert_eq!(missing(&scan.finish()), Some(vec![0, 1, 2]));
}

#[test]
fn lenient_scan_skips_what_it_cannot_read() {
    let mut scan = NameScan::new(names(&["a"]), true);
    assert_eq!(scan.observe(&Entry::Unreadable), Step::Skip);
    assert_eq!(scan.observe(&nameless()), Step::Skip);
    assert_eq!(missing(&scan.finish()), Some(vec![0]));
}

#[test]
fn loaded_values_are_returned_only_on_success() {
    let mut scan = NameScan::new(names(&["a", "b"]), false);
    let mut loaded: Vec<&[u8]> = Vec::new();
    for (entry, bytes) in [(file("b"), &b"second"[..]), (file("a"), &b"first"[..])] {
        if let Step::Apply(_) = scan.observe(&entry) {
            loaded.push(bytes);
        }
    }
    match scan.finish_with(loaded) {
        Ok(kept) => assert_eq!(kept, vec![&b"second"[..], &b"first"[..]]),
        Err(error) => panic!("unexpected error: {:?}", error),
    }

    let mut scan = NameScan::new(names(&["a", "b"]), false);
    let mut loaded: Vec<&[u8]> = Vec::new();
    if let Step::Apply(_) = scan.observe(&file("a")) {
        loaded.push(&b"first"[..]);
    }
    assert!(matches!(scan.finish_with(loaded), Err(Error::MissingFiles(ref left)) if left == &vec![1]));
}
