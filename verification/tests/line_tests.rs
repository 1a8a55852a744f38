use rust_http::method::Method;
use rust_http::request_line::RequestLine;
use rust_http::status_line::{StatusCode, StatusLine};
use rust_http::version::HttpVersion;

#[test]
fn test_request_line_parse() {
    let input = b"GET / HTTP/1.1";
    let rl = RequestLine::from_line(input).unwrap();

    assert_eq!(rl.method, Method::Get);
    assert_eq!(rl.url, b"/".to_vec());
    assert_eq!(rl.version, HttpVersion::new(1, 1));

    let input = b"POST /test HTTP/1.1";
    let rl = RequestLine::from_line(input).unwrap();

    assert_eq!(rl.method, Method::Post);
    assert_eq!(rl.url, b"/test".to_vec());
    assert_eq!(rl.version, HttpVersion::new(1, 1));

    let input = b"POST  /test HTTP/1.1";
    let rl = RequestLine::from_line(input);

    assert!(rl.is_err());

    let input = b"POST /test HTP/1.1";
    let rl = RequestLine::from_line(input);

    assert!(rl.is_err());
}

#[test]
fn test_status_line_parse() {
    let input = b"HTTP/1.1 200 Ok";
    let rl = StatusLine::from_line(input).unwrap();
    assert_eq!(rl.version, HttpVersion::new(1, 1));
    assert_eq!(rl.status_code, StatusCode::OK);

    let input = b"HTTP/1.1 200";
    let rl = StatusLine::from_line(input).unwrap();
    assert_eq!(rl.version, HttpVersion::new(1, 1));
    assert_eq!(rl.status_code, StatusCode::OK);

    let input = b"HTTP/1.1  200 Ok";
    let rl = StatusLine::from_line(input);

    assert!(rl.is_err());

    let input = b"HTP/1.1  200 Ok";
    let rl = StatusLine::from_line(input);

    assert!(rl.is_err());
}

#[test]
fn test_status_line_write_to() {
    let status_line = StatusLine::new(StatusCode::OK);
    let mut buf = Vec::new();
    status_line.write_to(&mut buf);
    assert_eq!(buf, b"HTTP/1.1 200 Ok\r\n".to_vec());
}

#[test]
fn test_request_line_write_to() {
    let rl = RequestLine::from_parts(Method::Post, b"/upload".to_vec(), HttpVersion::new(1, 1));
    let mut buf = Vec::new();
    rl.write_to(&mut buf);
    assert_eq!(buf, b"POST /upload HTTP/1.1\r\n".to_vec());
}

#[test]
fn test_method_parse_and_names() {
    assert_eq!(Method::parse(b"GET").unwrap(), Method::Get);
    assert_eq!(Method::parse(b"HEAD").unwrap(), Method::Head);
    assert_eq!(Method::parse(b"POST").unwrap(), Method::Post);
    assert_eq!(Method::parse(b"PUT").unwrap(), Method::Put);
    assert_eq!(Method::parse(b"DELETE").unwrap(), Method::Delete);
    assert_eq!(Method::parse(b"CONNECT").unwrap(), Method::Connect);
    assert_eq!(Method::parse(b"OPTIONS").unwrap(), Method::Options);
    assert_eq!(Method::parse(b"TRACE").unwrap(), Method::Trace);
    assert!(Method::parse(b"get").is_err());
    assert!(Method::parse(b"PATCH").is_err());
    assert_eq!(Method::Get.to_str(), "GET");
    assert_eq!(Method::Delete.to_str(), "DELETE");
    assert_eq!(Method::Get.to_bytes(), b"Get".to_vec());
    assert_eq!(Method::Options.to_bytes(), b"Options".to_vec());
}

#[test]
fn test_version_from_bytes() {
    assert_eq!(HttpVersion::from_bytes(b"1.0").unwrap(), HttpVersion::new(1, 0));
    assert_eq!(HttpVersion::from_bytes(b"1.1").unwrap(), HttpVersion::new(1, 1));
    assert_eq!(HttpVersion::from_bytes(b"2.0").unwrap(), HttpVersion::new(2, 0));
    assert_eq!(HttpVersion::from_bytes(b"3.0").unwrap(), HttpVersion::new(3, 0));
    assert!(HttpVersion::from_bytes(b"9.9").is_err());
    assert!(HttpVersion::from_bytes(b"1.1.1").is_err());
    assert_eq!(HttpVersion::default(), HttpVersion::new(1, 1));
}

#[test]
fn test_version_ordering() {
    assert!(HttpVersion::new(1, 0) < HttpVersion::new(1, 1));
    assert!(HttpVersion::new(1, 1) < HttpVersion::new(2, 0));
    assert!(HttpVersion::new(2, 0) == HttpVersion::new(2, 0));
    assert!(HttpVersion::new(3, 0) > HttpVersion::new(1, 1));
}

#[test]
fn test_status_code_text() {
    assert_eq!(StatusCode::OK.to_code(), b"200".to_vec());
    assert_eq!(StatusCode::BadRequest.to_code(), b"400".to_vec());
    assert_eq!(StatusCode::NotFound.to_code(), b"404".to_vec());
    assert_eq!(StatusCode::MethodNotAllowed.to_code(), b"405".to_vec());
    assert_eq!(StatusCode::InternalServerError.to_code(), b"500".to_vec());
    assert_eq!(StatusCode::OK.to_reason(), b"Ok".to_vec());
    assert_eq!(StatusCode::NotFound.to_reason(), b"Not Found".to_vec());
    assert_eq!(
        StatusCode::InternalServerError.to_reason(),
        b"Internal Server Error".to_vec()
    );
    assert_eq!(StatusCode::parse(b"404").unwrap(), StatusCode::NotFound);
    assert!(StatusCode::parse(b"999").is_err());
    assert!(StatusCode::parse(b"").is_err());
}

#[test]
fn test_status_line_parse_reason_with_spaces() {
    let rl = StatusLine::from_line(b"HTTP/1.1 404 Not Found").unwrap();
    assert_eq!(rl.status_code, StatusCode::NotFound);
    assert_eq!(rl.version, HttpVersion::new(1, 1));
}
