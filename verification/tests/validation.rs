//! Tests for the registration form's client-side checks.

use rustdirect::input_validation;

#[test]
fn name_rejects_reserved_segment() {
    assert!(!input_validation::name("_internal".to_string()));
}

#[test]
fn name_rejects_path_separator() {
    assert!(!input_validation::name("a/b".to_string()));
}

#[test]
fn name_accepts_plain_token() {
    assert!(input_validation::name("goog".to_string()));
}

#[test]
fn url_requires_http_prefix() {
    assert!(input_validation::url("https://x.example".to_string()));
    assert!(input_validation::url("http://x.example".to_string()));
    assert!(!input_validation::url("ftp://x.example".to_string()));
    assert!(!input_validation::url("htt".to_string()));
}
