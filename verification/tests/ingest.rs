use waview::WaveError;
use waview::fspath::{dir_or_parent, dir_or_parent_from};
use waview::ingest;

#[test]
fn missing_file_is_an_io_error() {
    let r = ingest(None);
    assert_eq!(r.err().unwrap(), WaveError::Io);
}

#[test]
fn error_messages_are_distinct() {
    assert_eq!(WaveError::Io.message(), "Failed to read file");
    assert_eq!(WaveError::Decompression.message(), "Failed to decompress file");
    assert_eq!(WaveError::Parse.message(), "Failed to parse file");
}

#[test]
fn dir_or_parent_of_a_directory() {
    assert_eq!(dir_or_parent("/"), Some("/"));
}

#[test]
fn dir_or_parent_of_an_existing_file() {
    assert_eq!(dir_or_parent("/proc/self/status"), Some("/proc/self"));
}

#[test]
fn dir_or_parent_of_a_missing_path() {
    assert_eq!(dir_or_parent("/no/such/directory/data.csv"), None);
    assert_eq!(dir_or_parent(""), None);
}

#[test]
fn dir_or_parent_decision_per_answer() {
    let path = "/some/dir/data.csv";
    assert_eq!(dir_or_parent_from(path, true, false), Some(path));
    assert_eq!(dir_or_parent_from(path, true, true), Some(path));
    assert_eq!(dir_or_parent_from(path, false, true), Some("/some/dir"));
    assert_eq!(dir_or_parent_from(path, false, false), None);
}
