use minigrep::lines::split_lines;
use minigrep::matching::contains_query;
use minigrep::{Config, ConfigError};

#[test]
fn build_with_both_arguments_succeeds() {
    let config = Config::build(
        Some(String::from("needle")),
        Some(String::from("hay.txt")),
        true,
    )
    .unwrap();
    assert_eq!(config.query, "needle");
    assert_eq!(config.file_path, "hay.txt");
    assert!(config.ignore_case);
}

#[test]
fn build_without_query_fails() {
    let err = Config::build(None, Some(String::from("hay.txt")), false).unwrap_err();
    assert_eq!(err, ConfigError::MissingQuery);
    assert_eq!(err.message(), "Didn't get a query string");
}

#[test]
fn build_without_file_path_fails() {
    let err = Config::build(Some(String::from("needle")), None, false).unwrap_err();
    assert_eq!(err, ConfigError::MissingFilePath);
    assert_eq!(err.message(), "Didn't get a file path");
}

#[test]
fn split_lines_handles_separators() {
    let empty: Vec<&str> = Vec::new();
    assert_eq!(split_lines(""), empty);
    assert_eq!(split_lines("abc"), vec!["abc"]);
    assert_eq!(split_lines("a\nb"), vec!["a", "b"]);
    assert_eq!(split_lines("a\nb\n"), vec!["a", "b"]);
    assert_eq!(split_lines("a\r\nb\r"), vec!["a", "b"]);
    assert_eq!(split_lines("\n\n"), vec!["", ""]);
}

#[test]
fn contains_query_finds_substrings() {
    assert!(contains_query("duct", "productive", false));
    assert!(!contains_query("Duct", "productive", false));
    assert!(contains_query("Duct", "productive", true));
    assert!(contains_query("", "anything", false));
    assert!(contains_query("", "", true));
    assert!(!contains_query("long query", "short", false));
}
