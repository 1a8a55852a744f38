use rust_http::body::{get_encoding, parse_body, Encoding};
use rust_http::errors::{BodyError, StreamError};
use rust_http::headers::Headers;
use rust_http::numbers::{dec_bytes, parse_dec, parse_hex};
use rust_http::stream_reader::StreamReader;

#[test]
fn test_set_content_length() {
    let mut headers = Headers::new();

    headers.parse_one_from_line(b"Content-Length: 1").unwrap();
    let encoding = get_encoding(&headers).unwrap();
    assert_eq!(encoding, Encoding::Nothing(1));

    headers = Headers::new();
    headers.parse_one_from_line(b"Content-Length: 2,2,2").unwrap();
    let encoding = get_encoding(&headers).unwrap();
    assert_eq!(encoding, Encoding::Nothing(2));

    headers = Headers::new();
    headers.parse_one_from_line(b"Content-Length: 2,1,1").unwrap();
    let res = get_encoding(&headers);
    assert!(res.is_err());

    headers = Headers::new();
    headers.parse_one_from_line(b"Transfer-Encoding: chunked").unwrap();
    let encoding = get_encoding(&headers).unwrap();
    assert_eq!(encoding, Encoding::Chunked);

    headers = Headers::new();
    headers.parse_one_from_line(b"Content-Length: 2").unwrap();
    headers.parse_one_from_line(b"Transfer-Encoding: chunked").unwrap();
    let res = get_encoding(&headers);
    assert!(res.is_err());
}

#[test]
fn test_parse_body_chunked_() {
    let mut reader = StreamReader::new(vec![b"1\r\nA\r\n4\r\n1\r\n1\r\n0\r\n".to_vec()]);
    let mut headers = Headers::new();
    headers.parse_one_from_line(b"Transfer-Encoding: chunked").unwrap();
    let body = parse_body(&mut headers, &mut reader).unwrap();

    assert_eq!(body, b"A1\r\n1".to_vec());
}

// Chunked decoding records the body's length and drops the coding header.
#[test]
fn test_chunked_normalizes_headers() {
    let mut reader = StreamReader::new(vec![b"2\r\nAB\r\na\r\n1234567890\r\n0\r\n".to_vec()]);
    let mut headers = Headers::new();
    headers.set(b"Transfer-Encoding", b"chunked");
    let body = parse_body(&mut headers, &mut reader).unwrap();
    assert_eq!(body, b"AB1234567890".to_vec());
    assert_eq!(headers.get(b"Content-Length"), Some(&b"12".to_vec()));
    assert_eq!(headers.get(b"Transfer-Encoding"), None);
}

// A declared chunk size of 2 with payload `ABC` has no CRLF at offset 2.
#[test]
fn test_chunked_missing_delimiter_fails() {
    let mut reader = StreamReader::new(vec![b"2\r\nABC\r\n0\r\n".to_vec()]);
    let mut headers = Headers::new();
    headers.set(b"Transfer-Encoding", b"chunked");
    let res = parse_body(&mut headers, &mut reader);
    assert_eq!(res, Err(BodyError::MalformedChunkedBody));
}

#[test]
fn test_chunked_bad_size_line_fails() {
    let mut reader = StreamReader::new(vec![b"zz\r\nAB\r\n0\r\n".to_vec()]);
    let mut headers = Headers::new();
    headers.set(b"Transfer-Encoding", b"chunked");
    let res = parse_body(&mut headers, &mut reader);
    assert_eq!(res, Err(BodyError::MalformedChunkedSize));
}

#[test]
fn test_unsupported_transfer_encoding_fails() {
    let mut headers = Headers::new();
    headers.set(b"Transfer-Encoding", b"gzip");
    assert!(get_encoding(&headers).is_err());
}

#[test]
fn test_invalid_content_length_value() {
    let mut headers = Headers::new();
    headers.set(b"Content-Length", b"abc");
    assert!(get_encoding(&headers).is_err());
}

// A short stream under length framing ends in an unexpected EOF, never a
// short body.
#[test]
fn test_length_enforcement_short_stream() {
    let mut headers = Headers::new();
    headers.set(b"Content-Length", b"2");
    let mut reader = StreamReader::new(vec![b"A".to_vec()]);
    let res = parse_body(&mut headers, &mut reader);
    assert_eq!(res, Err(BodyError::IO(StreamError::EOF)));
}

#[test]
fn test_no_framing_headers_means_empty_body() {
    let mut headers = Headers::new();
    let mut reader = StreamReader::new(vec![b"leftover".to_vec()]);
    let body = parse_body(&mut headers, &mut reader).unwrap();
    assert!(body.is_empty());
}

#[test]
fn test_parse_dec_values() {
    assert_eq!(parse_dec(b"0"), Some(0));
    assert_eq!(parse_dec(b"42069"), Some(42069));
    assert_eq!(parse_dec(b"007"), Some(7));
    assert_eq!(parse_dec(b""), None);
    assert_eq!(parse_dec(b"1a"), None);
    assert_eq!(parse_dec(b"-1"), None);
    assert_eq!(parse_dec(b"+1"), None);
    assert_eq!(parse_dec(b"18446744073709551615"), Some(usize::MAX));
    assert_eq!(parse_dec(b"18446744073709551616"), None);
}

#[test]
fn test_parse_hex_values() {
    assert_eq!(parse_hex(b"0"), Some(0));
    assert_eq!(parse_hex(b"a"), Some(10));
    assert_eq!(parse_hex(b"A"), Some(10));
    assert_eq!(parse_hex(b"ff"), Some(255));
    assert_eq!(parse_hex(b"00ff"), Some(255));
    assert_eq!(parse_hex(b"1A2b"), Some(0x1a2b));
    assert_eq!(parse_hex(b""), None);
    assert_eq!(parse_hex(b"g"), None);
    assert_eq!(parse_hex(b"ffffffffffffffff"), Some(usize::MAX));
    assert_eq!(parse_hex(b"10000000000000000"), None);
}

#[test]
fn test_dec_bytes_prints_canonically() {
    assert_eq!(dec_bytes(0), b"0".to_vec());
    assert_eq!(dec_bytes(5), b"5".to_vec());
    assert_eq!(dec_bytes(10), b"10".to_vec());
    assert_eq!(dec_bytes(42069), b"42069".to_vec());
    assert_eq!(dec_bytes(usize::MAX), b"18446744073709551615".to_vec());
}

#[test]
fn test_largest_content_length_short_stream() {
    let mut headers = Headers::new();
    headers.set(b"Content-Length", b"18446744073709551615");
    let mut reader = StreamReader::new(vec![b"A".to_vec()]);
    let res = parse_body(&mut headers, &mut reader);
    assert_eq!(res, Err(BodyError::IO(StreamError::EOF)));
}

#[test]
fn test_chunked_empty_body() {
    let mut reader = StreamReader::new(vec![b"0\r\n".to_vec()]);
    let mut headers = Headers::new();
    headers.set(b"Transfer-Encoding", b"chunked");
    let body = parse_body(&mut headers, &mut reader).unwrap();
    assert!(body.is_empty());
    assert_eq!(headers.get(b"Content-Length"), Some(&b"0".to_vec()));
    assert_eq!(headers.get(b"Transfer-Encoding"), None);
}
