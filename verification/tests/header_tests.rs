use http::headers::{normalize_header_field, normalize_header_value, Headers};

#[test]
fn normalize_header_value_with_crlf() {
    let got = normalize_header_value("Foo Bar\r\nBaz: Foo");
    assert_eq!(got, "Foo Bar Baz: Foo");
}

#[test]
fn tests_normalize_header_value_with_crlf() {
    let got = http::normalize_header_value("Foo Bar\r\nBaz: Foo");
    assert_eq!(got, "Foo Bar Baz: Foo");
}

#[test]
fn normalize_value_trims_unicode_whitespace() {
    assert_eq!(normalize_header_value("  a \t b  "), "a b");
    assert_eq!(normalize_header_value("\u{a0} x"), "x");
    assert_eq!(normalize_header_value(""), "");
}

#[test]
fn normalize_field_names() {
    assert_eq!(normalize_header_field("content-TYPE"), "Content-Type");
    assert_eq!(normalize_header_field("host"), "Host");
    assert_eq!(normalize_header_field("TE"), "Te");
    assert_eq!(normalize_header_field("x-eÉTAT"), "X-Eétat");
}

#[test]
fn insert_get_set() {
    let mut h = Headers::new();
    h.insert("accept", " text/html ");
    h.insert("ACCEPT", "text/plain");
    assert!(h.key_exists("Accept"));
    assert!(!h.key_exists("accept"));
    assert_eq!(h.get("Accept"), Some("text/html"));
    assert_eq!(
        h.get_vec("Accept").unwrap(),
        &vec!["text/html".to_string(), "text/plain".to_string()]
    );
    h.set("accept", "*/*");
    assert_eq!(h.get_vec("Accept").unwrap(), &vec!["*/*".to_string()]);
    assert_eq!(h.get("Host"), None);
    assert!(h.get_vec("Host").is_none());
}

#[test]
fn wire_form_order() {
    let mut h = Headers::new();
    h.insert("x-custom", "1");
    h.insert("content-length", "10");
    h.insert("host", "example.com");
    h.insert("connection", "close");
    h.insert("te", "trailers");
    let bytes: Vec<u8> = h.into();
    assert_eq!(
        String::from_utf8(bytes).unwrap(),
        "Connection: close\r\nHost: example.com\r\nContent-Length: 10\r\nX-Custom: 1\r\nTe: trailers\r\n"
    );
}

#[test]
fn stored_fields_are_already_normalized() {
    let mut h = Headers::new();
    h.insert("content-TYPE", "  text/html;\t charset=utf-8 ");
    h.insert("x-a", "1");
    h.set("X-A", " 2  3 ");
    for (k, v) in [("Content-Type", "text/html; charset=utf-8"), ("X-A", "2 3")] {
        assert_eq!(normalize_header_field(k), k);
        assert_eq!(h.get(k), Some(v));
        assert_eq!(normalize_header_value(v), v);
        let all = h.get_vec(k).unwrap();
        assert!(!all.is_empty());
        assert_eq!(h.get(k), Some(all[0].as_str()));
        assert!(h.key_exists(k));
    }
    assert!(!h.key_exists("content-type"));
    assert_eq!(h.get("content-type"), None);
}
