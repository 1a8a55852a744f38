use rust_http::stream_reader::StreamReader;

/// Splits `input` into fragments of at most `size` bytes, modelling a
/// transport that delivers the stream in small reads.
fn into_fragments(input: &[u8], size: usize) -> Vec<Vec<u8>> {
    let mut out = Vec::new();
    let mut at = 0;
    while at < input.len() {
        let end = usize::min(at + size, input.len());
        out.push(input[at..end].to_vec());
        at = end;
    }
    out
}

#[test]
fn test_stream_reader() {
    let input =
        b"GET / HTTP/1.1\r\nHost: localhost:42069\r\nUser-Agent: curl/7.81.0\r\nAccept: */*\r\n\r\n"
            .to_vec();
    let mut reader = StreamReader::new(vec![input]);

    let out = reader.read_line().unwrap();
    assert_eq!(out, b"GET / HTTP/1.1".to_vec());

    let out = reader.read_line().unwrap();
    assert_eq!(out, b"Host: localhost:42069".to_vec());

    let out = reader.read_line().unwrap();
    assert_eq!(out, b"User-Agent: curl/7.81.0".to_vec());

    let out = reader.read_line().unwrap();
    assert_eq!(out, b"Accept: */*".to_vec());

    let out = reader.read_line().unwrap();
    assert_eq!(out, b"".to_vec());
}

#[test]
fn test_stream_reader_line_longer_than_buf() {
    // a line longer than any transport read still comes out whole
    let len = 2048;
    let mut input = vec![0u8; len + 3];
    input.extend_from_slice(b"\r\n");
    let mut reader = StreamReader::new(into_fragments(&input, 2048));

    let out = reader.read_line().unwrap();
    assert_eq!(out, input[..input.len().saturating_sub(2)].to_vec());
}

#[test]
fn test_read_n() {
    let mut reader = StreamReader::new(vec![b"abab".to_vec()]);

    let buf = reader.read_n(4).unwrap();

    assert_eq!(buf.len(), 4);
    assert_eq!(buf, b"abab".to_vec());
}

#[test]
fn test_read_n_after_read_line() {
    let mut reader = StreamReader::new(vec![b"aa\r\nbbb".to_vec()]);

    reader.read_line().unwrap();

    let buf = reader.read_n(3).unwrap();

    assert_eq!(buf.len(), 3);
    assert_eq!(buf, b"bbb".to_vec());
}

#[test]
fn test_read_n_multiple() {
    let mut reader = StreamReader::new(vec![b"aaaabbb".to_vec()]);

    let read = 4;
    let buf = reader.read_n(read).unwrap();
    assert_eq!(buf.len(), read);
    assert_eq!(buf, b"aaaa".to_vec());

    let read = 3;
    let buf = reader.read_n(read).unwrap();
    assert_eq!(buf.len(), read);
    assert_eq!(buf, b"bbb".to_vec());
}

#[test]
fn test_read_line_keeps_bare_cr() {
    let mut reader = StreamReader::new(vec![b"a\rb\r\nrest".to_vec()]);
    let out = reader.read_line().unwrap();
    assert_eq!(out, b"a\rb".to_vec());
    assert_eq!(reader.take_rest(), b"rest".to_vec());
}

#[test]
fn test_read_line_crlf_split_across_fragments() {
    // the CR ends one fragment and the LF starts the next
    let mut reader = StreamReader::new(vec![b"line\r".to_vec(), b"\nafter".to_vec()]);
    let out = reader.read_line().unwrap();
    assert_eq!(out, b"line".to_vec());
    assert_eq!(reader.take_rest(), b"after".to_vec());
}

#[test]
fn test_read_line_without_terminator_fails() {
    let mut reader = StreamReader::new(vec![b"no terminator".to_vec()]);
    assert!(reader.read_line().is_err());
}

#[test]
fn test_read_n_short_stream_fails() {
    let mut reader = StreamReader::new(vec![b"ab".to_vec()]);
    assert!(reader.read_n(3).is_err());
}

// Fragmentation independence on concrete values: every fragment size reads
// the same lines and bytes.
#[test]
fn test_fragmentation_independence() {
    let input = b"alpha\r\nbeta\r\ngamma delta".to_vec();
    for size in 1..=input.len() {
        let mut reader = StreamReader::new(into_fragments(&input, size));
        assert_eq!(reader.read_line().unwrap(), b"alpha".to_vec());
        assert_eq!(reader.read_line().unwrap(), b"beta".to_vec());
        assert_eq!(reader.read_n(5).unwrap(), b"gamma".to_vec());
        assert_eq!(reader.take_rest(), b" delta".to_vec());
    }
}
