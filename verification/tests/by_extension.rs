use file_processor::{
    find_by_extension, Directory, Entry, Error, Extension, ExtensionScan, Match, Step,
};
use std::path::PathBuf;

fn with_extension(name: &str) -> Entry {
    let extension = match name.rfind('.') {
        Some(dot) if dot > 0 => Extension::Text(name[dot + 1..].to_string()),
        _ => Extension::Absent,
    };
    Entry::Listed { name: Some(name.to_string()), extension }
}

fn listable(path: &str) -> Directory {
    Directory { path: PathBuf::from(path), is_text: true, exists: true }
}

fn extensions(list: &[&str]) -> Vec<String> {
    list.iter().map(|extension| extension.to_string()).collect()
}

#[test]
fn transform_is_asked_for_matching_extensions_only() {
    let entries = vec![with_extension("a.txt"), with_extension("b.txt"), with_extension("c.log")];
    let report = find_by_extension(&listable("data"), &entries, extensions(&["txt"]), false);
    assert_eq!(
        report.applied,
        vec![Match { entry: 0, request: 0 }, Match { entry: 1, request: 0 }]
    );
    assert!(matches!(report.result, Ok(())));
}

#[test]
fn extension_matching_is_case_sensitive() {
    let entries = vec![with_extension("a.TXT"), with_extension("b.Txt"), with_extension("c.txt")];
    let report = find_by_extension(&listable("data"), &entries, extensions(&["txt"]), false);
    assert_eq!(report.applied, vec![Match { entry: 2, request: 0 }]);
    assert!(matches!(report.result, Ok(())));
}

#[test]
fn extension_matching_is_exact() {
    let entries = vec![
        with_extension("a.tx"),
        with_extension("b.txtx"),
        with_extension("c.tar.gz"),
        with_extension("txt"),
    ];
    let report = find_by_extension(&listable("data"), &entries, extensions(&["txt", "tar"]), false);
    assert!(report.applied.is_empty());
    assert!(matches!(report.result, Ok(())));
}

#[test]
fn match_names_the_first_equal_extension() {
    let entries = vec![with_extension("a.log"), with_extension("b.txt")];
    let report =
        find_by_extension(&listable("data"), &entries, extensions(&["txt", "log", "txt"]), false);
    assert_eq!(
        report.applied,
        vec![Match { entry: 0, request: 1 }, Match { entry: 1, request: 0 }]
    );
}

#[test]
fn no_match_is_no_failure() {
    let entries = vec![with_extension("a.log")];
    let report = find_by_extension(&listable("data"), &entries, extensions(&["txt"]), false);
    assert!(report.applied.is_empty());
    assert!(matches!(report.result, Ok(())));

    let report = find_by_extension(&listable("data"), &entries, Vec::new(), false);
    assert!(report.applied.is_empty());
    assert!(matches!(report.result, Ok(())));
}

#[test]
fn entries_without_a_usable_extension_are_passed_over() {
    let entries = vec![
        Entry::Listed { name: Some("Makefile".to_string()), extension: Extension::Absent },
        Entry::Listed { name: Some("odd".to_string()), extension: Extension::NotText },
        Entry::Listed { name: None, extension: Extension::Text("txt".to_string()) },
    ];
    let report = find_by_extension(&listable("data"), &entries, extensions(&["txt"]), false);
    assert_eq!(report.applied, vec![Match { entry: 2, request: 0 }]);
    assert!(matches!(report.result, Ok(())));
}

#[test]
fn empty_extension_matches_an_empty_request() {
    let entries = vec![Entry::Listed {
        name: Some("note.".to_string()),
        extension: Extension::Text(String::new()),
    }];
    let report = find_by_extension(&listable("data"), &entries, extensions(&[""]), false);
    assert_eq!(report.applied, vec![Match { entry: 0, request: 0 }]);
}

#[test]
fn strict_extension_scan_stops_at_an_unreadable_entry() {
    let entries = vec![with_extension("a.txt"), Entry::Unreadable, with_extension("b.txt")];
    let report = find_by_extension(&listable("data"), &entries, extensions(&["txt"]), false);
    assert_eq!(report.applied, vec![Match { entry: 0, request: 0 }]);
    assert!(matches!(report.result, Err(Error::CouldNotOpenEntry)));
}

#[test]
fn lenient_extension_scan_passes_unreadable_entries_over() {
    let entries = vec![Entry::Unreadable, with_extension("a.txt"), Entry::Unreadable];
    let report = find_by_extension(&listable("data"), &entries, extensions(&["txt"]), true);
    assert_eq!(report.applied, vec![Match { entry: 1, request: 0 }]);
    assert!(matches!(report.result, Ok(())));
}

#[test]
fn extension_scan_of_a_missing_directory_reads_nothing() {
    let directory = Directory { path: PathBuf::from("gone"), is_text: true, exists: false };
    let entries = vec![with_extension("a.txt")];
    let report = find_by_extension(&directory, &entries, extensions(&["txt"]), true);
    assert!(report.applied.is_empty());
    match report.result {
        Err(Error::DirectoryDoesNotExist(path)) => assert_eq!(path, PathBuf::from("gone")),
        other => panic!("unexpected result: {:?}", other),
    }
}

#[test]
fn extension_scan_of_a_path_that_is_not_text_fails() {
    let directory = Directory { path: PathBuf::from("odd"), is_text: false, exists: true };
    let entries = vec![with_extension("a.txt")];
    let report = find_by_extension(&directory, &entries, extensions(&["txt"]), true);
    assert!(report.applied.is_empty());
    assert!(matches!(report.result, Err(Error::NullDirectory)));
}

#[test]
fn extension_scan_answers_each_entry_with_a_step() {
    let mut scan = ExtensionScan::new(extensions(&["txt", "log"]), false);
    assert_eq!(scan.observe(&with_extension("a.log")), Step::Apply(1));
    assert_eq!(scan.observe(&with_extension("b.log")), Step::Apply(1));
    assert_eq!(scan.observe(&with_extension("c.TXT")), Step::Skip);
    assert_eq!(scan.observe(&Entry::Unreadable), Step::Stop);
    assert_eq!(scan.observe(&with_extension("d.txt")), Step::Stop);
    assert!(matches!(scan.finish(), Err(Error::CouldNotOpenEntry)));
}

#[test]
fn lenient_extension_scan_always_succeeds() {
    let mut scan = ExtensionScan::new(extensions(&["txt"]), true);
    assert_eq!(scan.observe(&Entry::Unreadable), Step::Skip);
    assert_eq!(scan.observe(&with_extension("a.txt")), Step::Apply(0));
    assert!(matches!(scan.finish(), Ok(())));
}
