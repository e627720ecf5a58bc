//! Scenario tests for the registry over both backends.

use rustdirect::storage::{Backend, MemoryStore, Record, SimpleFile};
use rustdirect::url::Url;
use rustdirect::{RedirectConfig, RegisterOutcome, Resolution, UrlMap};

fn url(text: &str) -> Url {
    Url::parse(text.to_string()).expect("absolute URL")
}

#[test]
fn add_then_lookup_memory() {
    let mut config = RedirectConfig::new(MemoryStore::new());
    assert!(config.add("goog", url("https://google.ch")));
    assert_eq!(config.lookup("goog").unwrap().as_str(), "https://google.ch");
    assert!(!config.add("goog", url("https://bing.com")));
    assert_eq!(config.lookup("goog").unwrap().as_str(), "https://google.ch");
}

#[test]
fn add_then_lookup_append_log() {
    let store = SimpleFile::new("").expect("empty log");
    let mut config = RedirectConfig::new(store);
    assert!(config.add("goog", url("https://google.ch")));
    assert_eq!(config.lookup("goog").unwrap().as_str(), "https://google.ch");
    assert!(!config.add("goog", url("https://bing.com")));
    assert_eq!(config.lookup("goog").unwrap().as_str(), "https://google.ch");
}

#[test]
fn lookup_absent_memory() {
    let config = RedirectConfig::new(MemoryStore::new());
    assert!(config.lookup("missing").is_none());
}

#[test]
fn lookup_absent_append_log() {
    let store = SimpleFile::new("a\0https://a.example\n").expect("valid log");
    let config = RedirectConfig::new(store);
    assert!(config.lookup("missing").is_none());
}

#[test]
fn register_created_then_conflict() {
    let mut config = RedirectConfig::new(MemoryStore::new());
    let first = config.register("goog", "https://google.ch".to_string());
    assert!(matches!(first, RegisterOutcome::Created));
    let second = config.register("goog", "https://bing.com".to_string());
    assert!(matches!(second, RegisterOutcome::Conflict));
    assert_eq!(config.lookup("goog").unwrap().as_str(), "https://google.ch");
}

#[test]
fn register_invalid_url_never_reaches_mapping() {
    let mut config = RedirectConfig::new(MemoryStore::new());
    let outcome = config.register("bad", "not an absolute url".to_string());
    assert!(matches!(outcome, RegisterOutcome::InvalidUrl(_)));
    if let RegisterOutcome::InvalidUrl(reason) = outcome {
        assert!(!reason.is_empty());
    }
    assert!(config.lookup("bad").is_none());
}

#[test]
fn resolve_outcomes() {
    let mut config = RedirectConfig::new(MemoryStore::new());
    assert!(config.add("goog", url("https://google.ch")));
    assert!(matches!(config.resolve(None), Resolution::NotApplicable));
    assert!(matches!(config.resolve(Some("nope")), Resolution::NotFound));
    match config.resolve(Some("goog")) {
        Resolution::Found(token) => assert_eq!(token.url.as_str(), "https://google.ch"),
        other => panic!("expected Found, got {:?}", other),
    }
}

#[test]
fn backend_variants_are_interchangeable() {
    let mut memory = RedirectConfig::new(Backend::Memory(MemoryStore::new()));
    let mut durable =
        RedirectConfig::new(Backend::AppendLog(SimpleFile::new("").expect("empty log")));
    assert!(memory.add("n", url("https://n.example")));
    assert!(durable.add("n", url("https://n.example")));
    assert_eq!(memory.lookup("n").unwrap().as_str(), "https://n.example");
    assert_eq!(durable.lookup("n").unwrap().as_str(), "https://n.example");
    assert!(memory.take_pending().is_empty());
    assert_eq!(durable.take_pending(), vec!["n\0https://n.example\n".to_string()]);
}

#[test]
fn url_canonicalizes_port() {
    let parsed = url("https://host:0080/x");
    assert_eq!(parsed.as_str(), "https://host:80/x");
}

#[test]
fn url_rejects_relative() {
    assert!(Url::parse("/only/a/path".to_string()).is_err());
}

#[test]
fn bulk_construction_last_write_wins() {
    let pairs = vec![
        Record { name: "a".to_string(), url: url("https://one.example") },
        Record { name: "a".to_string(), url: url("https://two.example") },
    ];
    let store = MemoryStore::from_pairs(pairs);
    assert_eq!(store.lookup("a").unwrap().as_str(), "https://two.example");
}

#[test]
fn register_on_persistent_backend_queues_record() {
    let store = SimpleFile::new("").expect("empty log");
    let mut config = RedirectConfig::new(store);
    let outcome = config.register("goog", "https://google.ch".to_string());
    assert!(matches!(outcome, RegisterOutcome::Created));
    assert_eq!(config.take_pending(), vec!["goog\0https://google.ch\n".to_string()]);
}
