use rust_http::connection::Connection;
use rust_http::headers::Headers;
use rust_http::method::Method;
use rust_http::request::Request;
use rust_http::request_builder::RequestBuilder;
use rust_http::response::Response;
use rust_http::response_builder::ResponseBuilder;
use rust_http::request_line::RequestLine;
use rust_http::status_line::StatusCode;
use rust_http::version::HttpVersion;

#[test]
fn request_test_write_to() {
    let mut request = Request {
        line: RequestLine::from_parts(Method::Get, b"/".to_vec(), HttpVersion::new(1, 1)),
        headers: Headers::new(),
        body: Vec::new(),
    };
    let mut w = Vec::new();
    request.write_to(&mut w);

    assert_eq!(w, b"GET / HTTP/1.1\r\n\r\n".to_vec());
}

#[test]
fn test_write_response() {
    let mut response = Response::new(StatusCode::OK);
    let mut buf = Vec::new();
    response.write_to(&mut buf);
    assert_eq!(buf, b"HTTP/1.1 200 Ok\r\n\r\n".to_vec());

    response.headers.add(b"Content-Type", b"text/plain");
    buf = Vec::new();
    response.write_to(&mut buf);
    assert_eq!(buf, b"HTTP/1.1 200 Ok\r\ncontent-type: text/plain\r\n\r\n".to_vec());

    buf = Vec::new();
    response.body.extend_from_slice(b"Hello");
    response.write_to(&mut buf);
    assert_eq!(
        buf,
        b"HTTP/1.1 200 Ok\r\ncontent-length: 5\r\ncontent-type: text/plain\r\n\r\nHello".to_vec()
    );
}

#[test]
fn request_builder_test_builder() {
    let request = RequestBuilder::new(Method::Get, b"/")
        .header(b"AA", b"BB")
        .build();

    assert_eq!(request.body.len(), 0);
    assert_eq!(request.line.method, Method::Get);
    assert_eq!(request.line.url, b"/".to_vec());
    assert_eq!(request.line.version, HttpVersion::new(1, 1));
    assert_eq!(request.headers.get(b"AA"), Some(&b"BB".to_vec()));
}

#[test]
fn response_builder_test_builder() {
    let mut builder = ResponseBuilder::new();
    builder.set_status_code(StatusCode::OK);
    builder.add_header(b"AA", b"BB");
    let response = builder.build();

    assert_eq!(response.body.len(), 0);
    assert_eq!(response.status_line.status_code, StatusCode::OK);
    assert_eq!(response.headers.get(b"AA"), Some(&b"BB".to_vec()));
}

// Request round-trip on concrete values: serializing a request and parsing
// the bytes back recovers it, with content-length recording the body.
#[test]
fn test_request_round_trip() {
    let mut request = RequestBuilder::new(Method::Post, b"/upload")
        .header(b"host", b"localhost:42069")
        .body(b"payload".to_vec())
        .build();
    let mut wire = Vec::new();
    request.write_to(&mut wire);
    assert_eq!(
        wire,
        b"POST /upload HTTP/1.1\r\ncontent-length: 7\r\nhost: localhost:42069\r\n\r\npayload"
            .to_vec()
    );

    let mut connection = Connection::<Request>::new(vec![wire]);
    let reparsed = connection.read().unwrap();
    assert_eq!(reparsed.line.method, Method::Post);
    assert_eq!(reparsed.line.url, b"/upload".to_vec());
    assert_eq!(reparsed.line.version, HttpVersion::new(1, 1));
    assert_eq!(reparsed.headers.get(b"host"), Some(&b"localhost:42069".to_vec()));
    assert_eq!(reparsed.headers.get(b"content-length"), Some(&b"7".to_vec()));
    assert_eq!(reparsed.body, b"payload".to_vec());

    // serializing the reparsed request gives the same bytes again
    let mut request2 = reparsed;
    let mut wire2 = Vec::new();
    request2.write_to(&mut wire2);
    let mut wire1 = Vec::new();
    request.write_to(&mut wire1);
    assert_eq!(wire1, wire2);
}

#[test]
fn test_response_round_trip() {
    let mut builder = ResponseBuilder::new();
    builder.add_to_body(b"Hello").unwrap();
    let mut response = builder.build();
    let mut wire = Vec::new();
    response.write_to(&mut wire);
    assert_eq!(wire, b"HTTP/1.1 200 Ok\r\ncontent-length: 5\r\n\r\nHello".to_vec());

    let mut connection = Connection::<Response>::new(vec![wire]);
    let reparsed = connection.read().unwrap();
    assert_eq!(reparsed.status_line.status_code, StatusCode::OK);
    assert_eq!(reparsed.status_line.version, HttpVersion::new(1, 1));
    assert_eq!(reparsed.headers.get(b"content-length"), Some(&b"5".to_vec()));
    assert_eq!(reparsed.body, b"Hello".to_vec());
}

#[test]
fn test_request_getters() {
    let request = RequestBuilder::new(Method::Get, b"/q")
        .body(b"zz".to_vec())
        .build();
    assert_eq!(request.get_method(), &Method::Get);
    assert_eq!(request.get_url(), b"/q");
    assert_eq!(request.get_body(), b"zz");
}

#[test]
fn test_internal_error_response() {
    let mut response = Response::internal_error();
    assert_eq!(response.status_line.status_code, StatusCode::InternalServerError);
    assert!(response.body.is_empty());
    let mut wire = Vec::new();
    response.write_to(&mut wire);
    assert_eq!(wire, b"HTTP/1.1 500 Internal Server Error\r\n\r\n".to_vec());
}
