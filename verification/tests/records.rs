use file_processor::{Error, FileModify, SaveFileFormat};
use std::path::PathBuf;
use std::time::{Duration, SystemTime};

#[test]
fn record_keeps_the_values_it_was_built_from() {
    let date = SystemTime::UNIX_EPOCH + Duration::from_secs(1_000);
    let record = FileModify::new(PathBuf::from("notes/a.txt"), date);
    let shown = format!("{:?}", record);
    assert!(shown.contains("FileModify"));
    assert!(shown.contains("notes/a.txt"));
    assert!(shown.contains(&format!("{:?}", date)));
}

#[test]
fn save_formats_are_distinct_tags() {
    let all = [
        SaveFileFormat::JSON,
        SaveFileFormat::Bincode,
        SaveFileFormat::CBOR,
        SaveFileFormat::YAML,
        SaveFileFormat::TOML,
        SaveFileFormat::MessagePack,
        SaveFileFormat::RON,
    ];
    let shown: Vec<String> = all.iter().map(|format| format!("{:?}", format)).collect();
    assert_eq!(shown, vec!["JSON", "Bincode", "CBOR", "YAML", "TOML", "MessagePack", "RON"]);
    let copy = all[0];
    assert_eq!(format!("{:?}", copy), format!("{:?}", all[0]));
}

#[test]
fn messages_of_the_errors_without_payload() {
    assert_eq!(
        Error::InvalidUnicodeData.message(),
        "Entry name contains invalid Unicode data"
    );
    assert_eq!(Error::NullDirectory.message(), "Null directory does not exist");
    assert_eq!(Error::CouldNotOpenEntry.message(), "Could not open entry");
}

#[test]
fn message_of_a_missing_directory_shows_the_path() {
    let error = Error::DirectoryDoesNotExist(PathBuf::from("some/where"));
    assert_eq!(error.message(), "Directory does not exist:\n\"some/where\"");
}

#[test]
fn message_of_missing_files_shows_the_positions() {
    assert_eq!(
        Error::MissingFiles(vec![1, 4, 10]).message(),
        "Could not find all files\nMissing files: [1, 4, 10]"
    );
    assert_eq!(
        Error::MissingFiles(Vec::new()).message(),
        "Could not find all files\nMissing files: []"
    );
}

#[test]
fn errors_can_be_cloned() {
    let error = Error::MissingFiles(vec![2]);
    let copy = error.clone();
    assert!(matches!(copy, Error::MissingFiles(ref indexes) if indexes == &vec![2]));
    let error = Error::DirectoryDoesNotExist(PathBuf::from("gone"));
    assert!(matches!(error.clone(), Error::DirectoryDoesNotExist(ref path) if path == &PathBuf::from("gone")));
}
