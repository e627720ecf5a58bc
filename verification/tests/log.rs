//! Tests for the append-log backend: replay, durability, failure modes.

use rustdirect::storage::{LogError, SimpleFile};
use rustdirect::url::Url;
use rustdirect::UrlMap;

#[test]
fn replay_two_records() {
    let store = SimpleFile::new("a\0https://a.example\nb\0https://b.example\n").expect("valid log");
    assert_eq!(store.lookup("a").unwrap().as_str(), "https://a.example");
    assert_eq!(store.lookup("b").unwrap().as_str(), "https://b.example");
    assert!(store.lookup("c").is_none());
}

#[test]
fn replay_is_idempotent() {
    let log = "a\0https://a.example\nb\0https://b.example\n";
    let first = SimpleFile::new(log).expect("valid log");
    let second = SimpleFile::new(log).expect("valid log");
    for name in ["a", "b", "c"] {
        assert_eq!(
            first.lookup(name).map(|u| u.as_str().to_string()),
            second.lookup(name).map(|u| u.as_str().to_string()),
        );
    }
}

#[test]
fn replay_without_trailing_newline() {
    let store = SimpleFile::new("a\0https://a.example").expect("valid log");
    assert_eq!(store.lookup("a").unwrap().as_str(), "https://a.example");
}

#[test]
fn replay_duplicate_name_last_wins() {
    let store =
        SimpleFile::new("a\0https://one.example\na\0https://two.example\n").expect("valid log");
    assert_eq!(store.lookup("a").unwrap().as_str(), "https://two.example");
}

#[test]
fn malformed_line_fails_construction() {
    let err = SimpleFile::new("justname-no-separator\n").expect_err("must fail fatally");
    assert!(matches!(err, LogError::BadSeparator { line: 0 }));
}

#[test]
fn malformed_later_line_fails_construction() {
    let err = SimpleFile::new("a\0https://a.example\njustname-no-separator\n")
        .expect_err("must fail fatally");
    assert!(matches!(err, LogError::BadSeparator { line: 1 }));
}

#[test]
fn two_separators_fail_construction() {
    let err = SimpleFile::new("a\0https://a.example\0extra\n").expect_err("must fail fatally");
    assert!(matches!(err, LogError::BadSeparator { line: 0 }));
}

#[test]
fn bad_url_fails_construction() {
    let err = SimpleFile::new("a\0not an absolute url\n").expect_err("must fail fatally");
    match err {
        LogError::BadUrl { line, reason } => {
            assert_eq!(line, 0);
            assert!(!reason.is_empty());
        }
        other => panic!("expected a URL error, got {:?}", other),
    }
}

#[test]
fn empty_line_fails_construction() {
    let err = SimpleFile::new("\n").expect_err("must fail fatally");
    assert!(matches!(err, LogError::BadSeparator { line: 0 }));
}

#[test]
fn insert_queues_exactly_the_appended_record() {
    let mut store = SimpleFile::new("").expect("empty log");
    let url = Url::parse("https://google.ch".to_string()).expect("absolute URL");
    assert!(store.maybe_insert("goog", url));
    let pending = store.take_pending();
    assert_eq!(pending, vec!["goog\0https://google.ch\n".to_string()]);
    assert!(store.take_pending().is_empty());
}

#[test]
fn rejected_insert_queues_nothing() {
    let mut store = SimpleFile::new("a\0https://a.example\n").expect("valid log");
    let url = Url::parse("https://other.example".to_string()).expect("absolute URL");
    assert!(!store.maybe_insert("a", url));
    assert!(store.take_pending().is_empty());
}

#[test]
fn append_then_reopen_is_durable() {
    // What the process shell does: replay a log, insert, append the queued
    // record to the log, and later reopen the grown log.
    let mut log = "a\0https://a.example\n".to_string();
    let mut store = SimpleFile::new(&log).expect("valid log");
    let url = Url::parse("https://b.example".to_string()).expect("absolute URL");
    assert!(store.maybe_insert("b", url));
    for record in store.take_pending() {
        log.push_str(&record);
    }
    let reopened = SimpleFile::new(&log).expect("valid log");
    assert_eq!(reopened.lookup("a").unwrap().as_str(), "https://a.example");
    assert_eq!(reopened.lookup("b").unwrap().as_str(), "https://b.example");
}

#[test]
fn canonical_form_is_what_persists() {
    let mut store = SimpleFile::new("").expect("empty log");
    let url = Url::parse("https://host:0080/x".to_string()).expect("absolute URL");
    assert!(store.maybe_insert("h", url));
    assert_eq!(store.take_pending(), vec!["h\0https://host:80/x\n".to_string()]);
}
