use goose_http::uri::{checked_parse_uri, from_absolute, parse_uri, split_captures, UriError};

#[test]
fn uri_splits_into_host_and_path() {
    assert_eq!(parse_uri("http://example.com/index.html"), ("example.com", "/index.html"));
    assert_eq!(parse_uri("http://example.com"), ("example.com", ""));
    assert_eq!(parse_uri("//host:8080/a/b?x=1#frag"), ("host:8080", "/a/b"));
    assert_eq!(checked_parse_uri("http://example.com/index.html"), Ok(("example.com", "/index.html")));
}

#[test]
fn uri_without_authority_is_malformed() {
    assert_eq!(checked_parse_uri("example.com/index.html"), Err(UriError::Malformed));
    assert_eq!(checked_parse_uri("localhost:8080/x"), Err(UriError::Malformed));
    assert_eq!(checked_parse_uri(""), Err(UriError::Malformed));
}

#[test]
fn absolute_path_keeps_the_path_part() {
    assert_eq!(from_absolute("http://host/a/b?q=1"), Ok(Some("/a/b")));
    assert_eq!(from_absolute("/plain/path"), Ok(Some("/plain/path")));
    assert_eq!(from_absolute("http://host"), Ok(Some("")));
}

#[test]
fn captures_give_host_and_path() {
    assert_eq!(split_captures(Some(Some("h")), Some(Some("/f"))), Ok(("h", "/f")));
    assert_eq!(split_captures(None, Some(Some("/f"))), Err(UriError::NoMatch));
    assert_eq!(split_captures(Some(Some("h")), None), Err(UriError::NoMatch));
    assert_eq!(split_captures(Some(None), Some(Some("/f"))), Err(UriError::Malformed));
    assert_eq!(split_captures(Some(Some("h")), Some(None)), Err(UriError::Malformed));
}
