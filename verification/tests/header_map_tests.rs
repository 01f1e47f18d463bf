use goose_http::headers::HeaderMap;

#[test]
fn get_gives_the_last_value_inserted() {
    let mut m = HeaderMap::new();
    assert_eq!(m.get("Host"), None);
    m.insert("Host".to_string(), "a".to_string());
    m.insert("Connection".to_string(), "close".to_string());
    m.insert("Host".to_string(), "b".to_string());
    assert_eq!(m.get("Host").map(|s| s.as_str()), Some("b"));
    assert_eq!(m.get("Connection").map(|s| s.as_str()), Some("close"));
    assert_eq!(m.get("host"), None);
}
