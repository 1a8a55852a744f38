use rust_http::connection::Connection;
use rust_http::errors::{
    BodyError, HeadersError, RequestError, RequestLineError, ResponseError, StatusLineError,
    StreamError, VersionError,
};
use rust_http::response::Response;
use rust_http::method::Method;
use rust_http::request::Request;
use rust_http::version::HttpVersion;

// A plain GET with three fields parses to its parts and an empty body.
#[test]
fn test_simple_get_parses() {
    let input =
        b"GET / HTTP/1.1\r\nHost: localhost:42069\r\nUser-Agent: curl/7.81.0\r\nAccept: */*\r\n\r\n"
            .to_vec();
    let mut connection = Connection::<Request>::new(vec![input]);
    let rq = connection.read().unwrap();
    assert_eq!(rq.line.method, Method::Get);
    assert_eq!(rq.line.url, b"/".to_vec());
    assert_eq!(rq.line.version, HttpVersion::new(1, 1));
    assert_eq!(rq.headers.get(b"host"), Some(&b"localhost:42069".to_vec()));
    assert_eq!(rq.headers.get(b"user-agent"), Some(&b"curl/7.81.0".to_vec()));
    assert_eq!(rq.headers.get(b"accept"), Some(&b"*/*".to_vec()));
    assert!(rq.body.is_empty());
}

// A one-byte body under `Content-Length: 1` parses; the same bytes under
// `Content-Length: 2` end in an unexpected EOF, never a short body.
#[test]
fn test_content_length_honored_or_eof() {
    let input = b"GET / HTTP/1.1\r\nHost: x\r\nContent-Length: 1\r\n\r\nA".to_vec();
    let mut connection = Connection::<Request>::new(vec![input]);
    let rq = connection.read().unwrap();
    assert_eq!(rq.body, b"A".to_vec());

    let input = b"GET / HTTP/1.1\r\nHost: x\r\nContent-Length: 2\r\n\r\nA".to_vec();
    let mut connection = Connection::<Request>::new(vec![input]);
    let rq = connection.read();
    assert!(matches!(rq, Err(RequestError::Body(BodyError::IO(_)))));
}

// Chunks of sizes 2, 1 and 10 concatenate in order; the decoded length is
// recorded and the transfer coding dropped.
#[test]
fn test_chunked_request_full_scenario() {
    let input =
        b"GET / HTTP/1.1\r\nTransfer-Encoding: chunked\r\n\r\n2\r\nAB\r\nA\r\n1234567890\r\n0\r\n\r\n"
            .to_vec();
    let mut connection = Connection::<Request>::new(vec![input]);
    let rq = connection.read().unwrap();
    assert_eq!(rq.body, b"AB1234567890".to_vec());
    assert_eq!(rq.headers.get(b"content-length"), Some(&b"12".to_vec()));
    assert_eq!(rq.headers.get(b"transfer-encoding"), None);
}

fn request_err(bytes: &[u8]) -> RequestError {
    Connection::<Request>::new(vec![bytes.to_vec()]).read().unwrap_err()
}

fn response_err(bytes: &[u8]) -> ResponseError {
    Connection::<Response>::new(vec![bytes.to_vec()]).read().unwrap_err()
}

// Each error variant has an input that draws it.
#[test]
fn test_error_variants() {
    assert_eq!(
        request_err(b"GET /\r\n\r\n"),
        RequestError::RequestLine(RequestLineError::MalformedRequestLine)
    );
    assert_eq!(
        request_err(b"PATCH / HTTP/1.1\r\n\r\n"),
        RequestError::RequestLine(RequestLineError::InvalidMehtod)
    );
    assert_eq!(
        request_err(b"GET / HTTP/9.9\r\n\r\n"),
        RequestError::RequestLine(RequestLineError::InvalidHTTPVersion(
            VersionError::InvalidHTTPVersion
        ))
    );
    assert_eq!(
        request_err(b"GET / HTTP/1.1\r\nNoColonHere\r\n\r\n"),
        RequestError::Header(HeadersError::MalformedFieldLine)
    );
    assert_eq!(
        request_err(b"GET / HTTP/1.1\r\nTransfer-Encoding: chunked\r\nContent-Length: 1\r\n\r\nA"),
        RequestError::Body(BodyError::Header(HeadersError::InvalidHeaderFields))
    );
    assert_eq!(
        request_err(b"GET / HTTP/1.1\r\nContent-Length: two\r\n\r\n"),
        RequestError::Body(BodyError::Header(HeadersError::InvalidContentLength))
    );
    assert_eq!(
        request_err(b"GET / HTTP/1.1\r\nTransfer-Encoding: chunked\r\n\r\nxx\r\n"),
        RequestError::Body(BodyError::MalformedChunkedSize)
    );
    assert_eq!(
        request_err(b"GET / HTTP/1.1\r\nTransfer-Encoding: chunked\r\n\r\n2\r\nABC\r\n"),
        RequestError::Body(BodyError::MalformedChunkedBody)
    );
    assert_eq!(
        request_err(b"GET / HTTP/1.1\r\nContent-Length: 5\r\n\r\nAB"),
        RequestError::Body(BodyError::IO(StreamError::EOF))
    );
    assert_eq!(request_err(b"GET / HTTP/1.1"), RequestError::IO(StreamError::EOF));

    assert_eq!(
        response_err(b"HTTP1.1 200 Ok\r\n\r\n"),
        ResponseError::StatusLine(StatusLineError::MalformedStatusLine)
    );
    assert_eq!(
        response_err(b"HTTP/1.1 999 Hm\r\n\r\n"),
        ResponseError::StatusLine(StatusLineError::InvalidStatusCode)
    );
    assert_eq!(
        response_err(b"HTTP/4.4 200 Ok\r\n\r\n"),
        ResponseError::StatusLine(StatusLineError::InvalidHTTPVersion(
            VersionError::InvalidHTTPVersion
        ))
    );
}
