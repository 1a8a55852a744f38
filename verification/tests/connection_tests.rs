use rust_http::connection::Connection;
use rust_http::errors::{BodyError, RequestError, ResponseError};
use rust_http::method::Method;
use rust_http::request::Request;
use rust_http::response::Response;
use rust_http::status_line::StatusCode;
use rust_http::version::HttpVersion;

/// Splits `input` into fragments of at most `size` bytes, modelling a
/// transport that delivers the stream in small reads.
fn batches(input: &[u8], size: usize) -> Vec<Vec<u8>> {
    let mut out = Vec::new();
    let mut at = 0;
    while at < input.len() {
        let end = usize::min(at + size, input.len());
        out.push(input[at..end].to_vec());
        at = end;
    }
    out
}

#[test]
fn test_request_connection() {
    let input =
        b"GET / HTTP/1.1\r\nHost: localhost:42069\r\nUser-Agent: curl/7.81.0\r\nAccept: */*\r\n\r\n";
    let mut connection = Connection::<Request>::new(vec![input.to_vec()]);

    let rq = connection.read().unwrap();
    assert_eq!(rq.line.method, Method::Get);
    assert_eq!(rq.line.url, b"/".to_vec());
    assert_eq!(rq.line.version, HttpVersion::new(1, 1));
    assert_eq!(rq.headers.get(b"Host"), Some(&b"localhost:42069".to_vec()));
    assert_eq!(rq.headers.get(b"User-Agent"), Some(&b"curl/7.81.0".to_vec()));
    assert_eq!(rq.headers.get(b"Accept"), Some(&b"*/*".to_vec()));
    assert_eq!(rq.body.len(), 0);
}

#[test]
fn test_request_connection_no_body() {
    let input =
        b"GET / HTTP/1.1\r\nHost: localhost:42069\r\nUser-Agent: curl/7.81.0\r\nAccept: */*\r\n\r\n"
            .to_vec();
    let mut connection = Connection::<Request>::new(batches(&input, 3));

    let rq = connection.read().unwrap();
    assert_eq!(rq.line.method, Method::Get);
    assert_eq!(rq.line.url, b"/".to_vec());
    assert_eq!(rq.line.version, HttpVersion::new(1, 1));
    assert_eq!(rq.headers.get(b"Host"), Some(&b"localhost:42069".to_vec()));
    assert_eq!(rq.headers.get(b"User-Agent"), Some(&b"curl/7.81.0".to_vec()));
    assert_eq!(rq.headers.get(b"Accept"), Some(&b"*/*".to_vec()));
    assert!(rq.body.is_empty());

    let input =
        b"POST /post HTTP/1.1\r\nHost: localhost:42069\r\nUser-Agent: curl/7.81.0\r\nAccept: */*\r\n\r\n"
            .to_vec();
    let mut connection = Connection::<Request>::new(batches(&input, 3));

    let rq = connection.read().unwrap();
    assert_eq!(rq.line.method, Method::Post);
    assert_eq!(rq.line.url, b"/post".to_vec());
    assert_eq!(rq.line.version, HttpVersion::new(1, 1));
    assert_eq!(rq.headers.get(b"Host"), Some(&b"localhost:42069".to_vec()));
    assert_eq!(rq.headers.get(b"User-Agent"), Some(&b"curl/7.81.0".to_vec()));
    assert_eq!(rq.headers.get(b"Accept"), Some(&b"*/*".to_vec()));
    assert!(rq.body.is_empty());
}

#[test]
fn test_request_connection_batch_with_body() {
    let input = b"GET / HTTP/1.1\r\nHost: localhost:42069\r\nContent-Length: 1\r\n\r\nA".to_vec();
    let mut connection = Connection::<Request>::new(batches(&input, 3));

    let rq = connection.read().unwrap();
    assert_eq!(rq.line.method, Method::Get);
    assert_eq!(rq.line.url, b"/".to_vec());
    assert_eq!(rq.line.version, HttpVersion::new(1, 1));
    assert_eq!(rq.headers.get(b"Host"), Some(&b"localhost:42069".to_vec()));
    assert_eq!(rq.headers.get(b"Content-Length"), Some(&b"1".to_vec()));
    assert_eq!(rq.body, vec![b'A']);

    let input = b"GET / HTTP/1.1\r\nHost: localhost:42069\r\nContent-Length: 2\r\n\r\nA".to_vec();
    let mut connection = Connection::<Request>::new(batches(&input, 3));

    let rq = connection.read();

    assert!(rq.is_err());
    match rq {
        Err(RequestError::Body(BodyError::IO(_))) => (),
        e => panic!("expected Body IO Error, but was {:?}", e),
    }
}

#[test]
fn test_request_connection_chunked_encoding() {
    let input =
        b"GET / HTTP/1.1\r\nTransfer-Encoding: chunked\r\n\r\n2\r\nAB\r\nA\r\n1234567890\r\n0\r\n\r\n"
            .to_vec();
    let mut connection = Connection::<Request>::new(batches(&input, 3));

    let rq = connection.read().unwrap();
    assert_eq!(rq.body, b"AB1234567890".to_vec());
    assert_eq!(rq.body.len(), 12);
}

#[test]
fn test_request_connection_chunked_encoding_with_crlf_in_body() {
    let input =
        b"GET / HTTP/1.1\r\nTransfer-Encoding: chunked\r\n\r\n2\r\nAB\r\n4\r\n1\r\n1\r\n0\r\n\r\n"
            .to_vec();
    let mut connection = Connection::<Request>::new(batches(&input, 3));

    let rq = connection.read().unwrap();
    assert_eq!(rq.body, b"AB1\r\n1".to_vec());
    assert_eq!(rq.body.len(), 6);
}

#[test]
fn test_request_connection_chunked_encoding_err() {
    let input =
        b"GET / HTTP/1.1\r\nTransfer-Encoding: chunked\r\n\r\n2\r\nABC\r\n4\r\n1234\r\n0\r\n\r\n"
            .to_vec();
    let mut connection = Connection::<Request>::new(batches(&input, 3));

    let rq = connection.read();
    assert!(rq.is_err());
}

#[test]
fn test_response_connection() {
    let input =
        b"HTTP/1.1 200 Ok\r\nHost: localhost:42069\r\nUser-Agent: curl/7.81.0\r\nAccept: */*\r\n\r\n";
    let mut connection = Connection::<Response>::new(vec![input.to_vec()]);

    let rq = connection.read().unwrap();
    assert_eq!(rq.status_line.status_code, StatusCode::OK);
    assert_eq!(rq.status_line.version, HttpVersion::new(1, 1));
    assert_eq!(rq.headers.get(b"Host"), Some(&b"localhost:42069".to_vec()));
    assert_eq!(rq.headers.get(b"User-Agent"), Some(&b"curl/7.81.0".to_vec()));
    assert_eq!(rq.headers.get(b"Accept"), Some(&b"*/*".to_vec()));
    assert_eq!(rq.body.len(), 0);
}

#[test]
fn test_response_connection_no_body() {
    let input =
        b"HTTP/1.1 200 Ok\r\nHost: localhost:42069\r\nUser-Agent: curl/7.81.0\r\nAccept: */*\r\n\r\n"
            .to_vec();
    let mut connection = Connection::<Response>::new(batches(&input, 3));

    let rq = connection.read().unwrap();
    assert_eq!(rq.status_line.status_code, StatusCode::OK);
    assert_eq!(rq.status_line.version, HttpVersion::new(1, 1));
    assert_eq!(rq.headers.get(b"Host"), Some(&b"localhost:42069".to_vec()));
    assert_eq!(rq.headers.get(b"User-Agent"), Some(&b"curl/7.81.0".to_vec()));
    assert_eq!(rq.headers.get(b"Accept"), Some(&b"*/*".to_vec()));
    assert!(rq.body.is_empty());

    let input =
        b"HTTP/1.1 404 Not Found\r\nHost: localhost:42069\r\nUser-Agent: curl/7.81.0\r\nAccept: */*\r\n\r\n"
            .to_vec();
    let mut connection = Connection::<Response>::new(batches(&input, 3));

    let rq = connection.read().unwrap();
    assert_eq!(rq.status_line.status_code, StatusCode::NotFound);
    assert_eq!(rq.status_line.version, HttpVersion::new(1, 1));
    assert_eq!(rq.headers.get(b"Host"), Some(&b"localhost:42069".to_vec()));
    assert_eq!(rq.headers.get(b"User-Agent"), Some(&b"curl/7.81.0".to_vec()));
    assert_eq!(rq.headers.get(b"Accept"), Some(&b"*/*".to_vec()));
    assert!(rq.body.is_empty());
}

#[test]
fn test_response_connection_batch_with_body() {
    let input = b"HTTP/1.1 200 Ok\r\nHost: localhost:42069\r\nContent-Length: 1\r\n\r\nA".to_vec();
    let mut connection = Connection::<Response>::new(batches(&input, 3));

    let rq = connection.read().unwrap();
    assert_eq!(rq.status_line.status_code, StatusCode::OK);
    assert_eq!(rq.status_line.version, HttpVersion::new(1, 1));
    assert_eq!(rq.headers.get(b"Host"), Some(&b"localhost:42069".to_vec()));
    assert_eq!(rq.headers.get(b"Content-Length"), Some(&b"1".to_vec()));
    assert_eq!(rq.body, vec![b'A']);

    let input = b"HTTP/1.1 200 Ok\r\nHost: localhost:42069\r\nContent-Length: 2\r\n\r\nA".to_vec();
    let mut connection = Connection::<Response>::new(batches(&input, 3));

    let rq = connection.read();

    assert!(rq.is_err());
    match rq {
        Err(ResponseError::Body(BodyError::IO(_))) => (),
        e => panic!("expected Body IO Error, but was {:?}", e),
    }
}

#[test]
fn test_response_connection_chunked_encoding() {
    let input =
        b"HTTP/1.1 200 Ok\r\nTransfer-Encoding: chunked\r\n\r\n2\r\nAB\r\nA\r\n1234567890\r\n0\r\n\r\n"
            .to_vec();
    let mut connection = Connection::<Response>::new(batches(&input, 3));

    let rq = connection.read().unwrap();
    assert_eq!(rq.body, b"AB1234567890".to_vec());
    assert_eq!(rq.body.len(), 12);
}

#[test]
fn test_response_connection_chunked_encoding_with_crlf_in_body() {
    let input =
        b"HTTP/1.1 200 Ok\r\nTransfer-Encoding: chunked\r\n\r\n2\r\nAB\r\n4\r\n1\r\n1\r\n0\r\n\r\n"
            .to_vec();
    let mut connection = Connection::<Response>::new(batches(&input, 3));

    let rq = connection.read().unwrap();
    assert_eq!(rq.body, b"AB1\r\n1".to_vec());
    assert_eq!(rq.body.len(), 6);
}

#[test]
fn test_response_connection_chunked_encoding_err() {
    let input =
        b"HTTP/1.1 200 Ok\r\nTransfer-Encoding: chunked\r\n\r\n2\r\nABC\r\n4\r\n1234\r\n0\r\n\r\n"
            .to_vec();
    let mut connection = Connection::<Response>::new(batches(&input, 3));

    let rq = connection.read();
    assert!(rq.is_err());
}

// The chunked path normalizes headers: content-length replaces the
// transfer coding.
#[test]
fn test_request_chunked_normalizes_headers() {
    let input =
        b"GET / HTTP/1.1\r\nTransfer-Encoding: chunked\r\n\r\n2\r\nAB\r\nA\r\n1234567890\r\n0\r\n\r\n"
            .to_vec();
    let mut connection = Connection::<Request>::new(batches(&input, 7));
    let rq = connection.read().unwrap();
    assert_eq!(rq.headers.get(b"Content-Length"), Some(&b"12".to_vec()));
    assert_eq!(rq.headers.get(b"Transfer-Encoding"), None);
}

// A message carrying both framing fields is rejected, whatever follows.
#[test]
fn test_framing_conflict_rejected() {
    let input =
        b"GET / HTTP/1.1\r\nTransfer-Encoding: chunked\r\nContent-Length: 2\r\n\r\nAB".to_vec();
    let mut connection = Connection::<Request>::new(vec![input]);
    let rq = connection.read();
    assert!(matches!(
        rq,
        Err(RequestError::Body(BodyError::Header(
            rust_http::errors::HeadersError::InvalidHeaderFields
        )))
    ));
}

// One wire image parses identically however the transport fragments it.
#[test]
fn test_request_parse_fragmentation_independent() {
    let input =
        b"POST /up HTTP/1.1\r\nHost: x\r\nContent-Length: 4\r\n\r\nWXYZnext".to_vec();
    for size in 1..=input.len() {
        let mut connection = Connection::<Request>::new(batches(&input, size));
        let rq = connection.read().unwrap();
        assert_eq!(rq.line.method, Method::Post);
        assert_eq!(rq.line.url, b"/up".to_vec());
        assert_eq!(rq.body, b"WXYZ".to_vec());
    }
}

// Writing through the connection frames the response exactly once per call.
#[test]
fn test_connection_respond_and_send() {
    let mut connection = Connection::<Request>::new(Vec::new());
    let mut response = Response::new(StatusCode::OK);
    response.body.extend_from_slice(b"Hello");
    connection.respond(&mut response);
    assert_eq!(
        connection.written_bytes(),
        &b"HTTP/1.1 200 Ok\r\ncontent-length: 5\r\n\r\nHello".to_vec()
    );
    let drained = connection.take_written();
    assert_eq!(drained, b"HTTP/1.1 200 Ok\r\ncontent-length: 5\r\n\r\nHello".to_vec());
    assert!(connection.written_bytes().is_empty());
}
