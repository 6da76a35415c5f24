use linegrep::error::SearchError;

#[test]
fn a_missing_path_is_named() {
    let error = SearchError::PathNotFound("missing.txt".to_string());
    assert_eq!(error.message(), "missing.txt: not found");
    assert!(!error.is_fatal());
}

#[test]
fn an_unreadable_file_is_named() {
    let error = SearchError::UnreadableFile("d/blob.bin".to_string());
    assert_eq!(error.message(), "d/blob.bin: not readable as text");
    assert!(!error.is_fatal());
}

#[test]
fn a_bad_configuration_ends_the_run() {
    let error = SearchError::InvalidConfiguration;
    assert_eq!(error.message(), "invalid configuration");
    assert!(error.is_fatal());
}
