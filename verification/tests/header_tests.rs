use rust_http::headers::Headers;

#[test]
fn test_header_parse() {
    let input = b"Host: localhost:42069".to_vec();
    let mut header = Headers::new();
    let n = header.parse(&input).unwrap();
    assert_eq!(n, 0);

    let input = b"\r\n".to_vec();
    let mut header = Headers::new();
    let n = header.parse(&input).unwrap();
    assert_eq!(n, 2);

    let input = b"Host: localhost:42069\r\n".to_vec();
    let mut header = Headers::new();
    let n = header.parse(&input).unwrap();
    assert_eq!(header.get(b"Host"), Some(&b"localhost:42069".to_vec()));
    assert_eq!(header.get(b"host"), Some(&b"localhost:42069".to_vec()));
    assert_eq!(n, 23);

    let input = b"Host : localhost:42069\r\n".to_vec();
    let mut header = Headers::new();
    let res = header.parse(&input);
    assert!(res.is_err());

    let mut input = b"Host : localhost:42069\r\n".to_vec();
    input[0] = 1; // Invalid field value byte
    let mut header = Headers::new();
    let res = header.parse(&input);
    assert!(res.is_err());
}

#[test]
fn headers_test_write_to() {
    let mut buf = Vec::new();
    let mut headers = Headers::new();
    headers.add(b"a", b"b");
    headers.write_to(&mut buf);
    assert_eq!(buf, b"a: b\r\n\r\n");

    buf = Vec::new();
    headers.add(b"c", b"d");
    headers.write_to(&mut buf);
    assert_eq!(buf, b"a: b\r\nc: d\r\n\r\n");
}

#[test]
fn test_get_is_case_insensitive() {
    let mut headers = Headers::new();
    headers.set(b"foo", b"bar");
    assert_eq!(headers.get(b"foo"), Some(&b"bar".to_vec()));
    assert_eq!(headers.get(b"FOO"), Some(&b"bar".to_vec()));
    assert_eq!(headers.get(b"Foo"), Some(&b"bar".to_vec()));
}

#[test]
fn test_add_folds_duplicates_with_comma() {
    let mut headers = Headers::new();
    let prev = headers.add(b"Accept", b"text/html");
    assert_eq!(prev, None);
    let prev = headers.add(b"accept", b"text/plain");
    assert_eq!(prev, Some(b"text/html".to_vec()));
    assert_eq!(headers.get(b"Accept"), Some(&b"text/html,text/plain".to_vec()));
}

#[test]
fn test_set_overwrites_and_remove_deletes() {
    let mut headers = Headers::new();
    headers.set(b"Key", b"one");
    headers.set(b"KEY", b"two");
    assert_eq!(headers.get(b"key"), Some(&b"two".to_vec()));
    headers.remove(b"kEy");
    assert_eq!(headers.get(b"key"), None);
    assert!(headers.is_empty());
}

#[test]
fn test_field_contains_value_tokens() {
    let mut headers = Headers::new();
    headers.set(b"Connection", b"keep-alive, Upgrade");
    assert!(headers.field_contains_value(b"connection", b"keep-alive"));
    assert!(headers.field_contains_value(b"connection", b"upgrade"));
    assert!(headers.field_contains_value(b"CONNECTION", b"UPGRADE"));
    assert!(!headers.field_contains_value(b"connection", b"close"));
    assert!(!headers.field_contains_value(b"missing", b"close"));
}

// Header round-trip on concrete values: a block built by `set` calls,
// serialized and re-parsed line by line, reads back equal.
#[test]
fn test_header_round_trip() {
    let mut headers = Headers::new();
    headers.set(b"Host", b"localhost:42069");
    headers.set(b"User-Agent", b"curl/7.81.0");
    headers.set(b"Accept", b"*/*");
    let mut wire = Vec::new();
    headers.write_to(&mut wire);

    let mut reparsed = Headers::new();
    let mut at = 0;
    loop {
        let n = reparsed.parse(&wire[at..]).unwrap();
        assert!(n > 0, "serialized block must hold complete lines");
        at += n;
        // the shortest field line consumes five bytes, so a consumption of
        // two is the block's terminating blank line
        if n == 2 {
            break;
        }
    }
    assert_eq!(at, wire.len());
    assert_eq!(reparsed.get(b"host"), Some(&b"localhost:42069".to_vec()));
    assert_eq!(reparsed.get(b"user-agent"), Some(&b"curl/7.81.0".to_vec()));
    assert_eq!(reparsed.get(b"accept"), Some(&b"*/*".to_vec()));
    let mut wire2 = Vec::new();
    reparsed.write_to(&mut wire2);
    assert_eq!(wire, wire2);
}

#[test]
fn test_add_default_sets_connection_close() {
    let mut headers = Headers::new();
    headers.add_default();
    assert_eq!(headers.get(b"Connection"), Some(&b"close".to_vec()));
}
