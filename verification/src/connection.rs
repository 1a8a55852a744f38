//! A bound (reader, writer, direction) object framing successive messages
//! on one transport. A server-side connection reads requests and writes
//! responses; a client-side one reads responses and writes requests. The
//! inbound bytes arrive as arbitrary fragments; the outbound bytes
//! accumulate in a buffer the transport drains.

use vstd::prelude::*;

use crate::ascii::spec_find_crlf;
use crate::body::{parse_body, spec_parse_body};
use crate::errors::{HeadersError, RequestError, ResponseError, StreamError};
use crate::headers::{spec_add, spec_parse_field_line, Entry, Headers};
use crate::method::Method;
use crate::request::{spec_serialize_request, Request};
use crate::request_line::{spec_parse_request_line, RequestLine};
use crate::response::{spec_serialize_response, Response};
use crate::status_line::{spec_parse_status_line, StatusCode, StatusLine};
use crate::stream_reader::{spec_chunks_concat, StreamReader};
use crate::version::HttpVersion;

verus! {

/// Why reading a header block stops early: the stream ended before the
/// blank line, or a field line was rejected.
#[derive(Debug, PartialEq, Eq)]
pub enum HeaderBlockError {
    Eof,
    Field(HeadersError),
}

/// What reading a header block yields: field lines parsed and added in
/// wire order until the blank line, which is consumed.
pub open spec fn spec_parse_header_block(s: Seq<u8>, acc: Seq<Entry>) -> Result<
    (Seq<Entry>, Seq<u8>),
    HeaderBlockError,
>
    decreases s.len(),
{
    match spec_find_crlf(s) {
        None => Err(HeaderBlockError::Eof),
        Some(i) => if 0 <= i && i + 1 < s.len() {
            if i == 0 {
                Ok((acc, s.skip(2)))
            } else {
                match spec_parse_field_line(s.take(i)) {
                    Err(e) => Err(HeaderBlockError::Field(e)),
                    Ok(kv) => spec_parse_header_block(s.skip(i + 2), spec_add(acc, kv.0, kv.1)),
                }
            }
        } else {
            Err(HeaderBlockError::Eof)
        },
    }
}

/// Reads header lines until the blank line that ends the block.
fn read_header_block(reader: &mut StreamReader) -> (r: Result<Headers, HeaderBlockError>)
    requires
        old(reader).wf(),
    ensures
        final(reader).wf(),
        match r {
            Ok(h) => h.wf() && spec_parse_header_block(old(reader)@, Seq::<Entry>::empty())
                == Ok::<(Seq<Entry>, Seq<u8>), HeaderBlockError>((h@, final(reader)@)),
            Err(e) => spec_parse_header_block(old(reader)@, Seq::<Entry>::empty()) == Err::<
                (Seq<Entry>, Seq<u8>),
                HeaderBlockError,
            >(e),
        },
{
    let mut headers = Headers::new();
    loop
        invariant
            reader.wf(),
            headers.wf(),
            spec_parse_header_block(old(reader)@, Seq::<Entry>::empty())
                == spec_parse_header_block(reader@, headers@),
        decreases reader@.len(),
    {
        let ghost s = reader@;
        let ghost acc = headers@;
        let line = match reader.read_line() {
            Ok(line) => line,
            Err(_) => {
                return Err(HeaderBlockError::Eof);
            },
        };
        proof {
            crate::ascii::lemma_find_crlf(s);
        }
        if line.len() == 0 {
            proof {
                assert(reader@ =~= s.skip(2));
            }
            return Ok(headers);
        }
        match headers.parse_one_from_line(line.as_slice()) {
            Ok(()) => {
                proof {
                    assert(spec_parse_header_block(s, acc) == spec_parse_header_block(
                        reader@,
                        headers@,
                    ));
                }
            },
            Err(e) => {
                return Err(HeaderBlockError::Field(e));
            },
        }
    }
}

/// The mathematical content of a request: method, target, version,
/// headers, body.
pub type RequestModel = (Method, Seq<u8>, HttpVersion, Seq<Entry>, Seq<u8>);

/// The mathematical content of a response: version, status, headers, body.
pub type ResponseModel = (HttpVersion, StatusCode, Seq<Entry>, Seq<u8>);

/// What reading one request from the stream yields: the request and the
/// unconsumed rest, or the first error. The start line is read first,
/// then the header block, then the body that the headers announce.
pub open spec fn spec_read_request(s: Seq<u8>) -> Result<(RequestModel, Seq<u8>), RequestError> {
    match spec_find_crlf(s) {
        None => Err(RequestError::IO(StreamError::EOF)),
        Some(i) => match spec_parse_request_line(s.take(i)) {
            Err(e) => Err(RequestError::RequestLine(e)),
            Ok((m, url, ver)) => match spec_parse_header_block(
                s.skip(i + 2),
                Seq::<Entry>::empty(),
            ) {
                Err(HeaderBlockError::Eof) => Err(RequestError::IO(StreamError::EOF)),
                Err(HeaderBlockError::Field(e)) => Err(RequestError::Header(e)),
                Ok((es, rest)) => match spec_parse_body(es, rest) {
                    Err(e) => Err(RequestError::Body(e)),
                    Ok((es2, body, rest2)) => Ok(((m, url, ver, es2, body), rest2)),
                },
            },
        },
    }
}

/// What reading one response from the stream yields, symmetrically.
pub open spec fn spec_read_response(s: Seq<u8>) -> Result<(ResponseModel, Seq<u8>), ResponseError> {
    match spec_find_crlf(s) {
        None => Err(ResponseError::IO(StreamError::EOF)),
        Some(i) => match spec_parse_status_line(s.take(i)) {
            Err(e) => Err(ResponseError::StatusLine(e)),
            Ok((ver, code)) => match spec_parse_header_block(
                s.skip(i + 2),
                Seq::<Entry>::empty(),
            ) {
                Err(HeaderBlockError::Eof) => Err(ResponseError::IO(StreamError::EOF)),
                Err(HeaderBlockError::Field(e)) => Err(ResponseError::Header(e)),
                Ok((es, rest)) => match spec_parse_body(es, rest) {
                    Err(e) => Err(ResponseError::Body(e)),
                    Ok((es2, body, rest2)) => Ok(((ver, code, es2, body), rest2)),
                },
            },
        },
    }
}

/// One direction of message traffic on a transport: a reader over the
/// inbound fragments and a buffer of outbound bytes. The type parameter
/// is the message read from the stream: `Request` on a server,
/// `Response` on a client.
pub struct Connection<T> {
    reader: StreamReader,
    out: Vec<u8>,
    direction: core::marker::PhantomData<T>,
}

impl<T> Connection<T> {
    /// The bytes not yet consumed from the inbound stream.
    pub closed spec fn stream(&self) -> Seq<u8> {
        self.reader@
    }

    /// The outbound bytes written so far and not yet drained.
    pub closed spec fn written(&self) -> Seq<u8> {
        self.out@
    }

    /// The reader's position sits inside its current fragment.
    pub closed spec fn wf(&self) -> bool {
        self.reader.wf()
    }

    /// A connection over the inbound fragments; the outbound buffer
    /// starts empty.
    pub fn new(chunks: Vec<Vec<u8>>) -> (r: Connection<T>)
        ensures
            r.wf(),
            r.stream() == spec_chunks_concat(chunks@, 0),
            r.written() == Seq::<u8>::empty(),
    {
        let r = Connection {
            reader: StreamReader::new(chunks),
            out: Vec::new(),
            direction: core::marker::PhantomData,
        };
        proof {
            assert(r.out@ =~= Seq::<u8>::empty());
        }
        r
    }

    /// A borrowed view of the outbound bytes, for the transport to drain.
    pub fn written_bytes(&self) -> (r: &Vec<u8>)
        ensures
            r@ == self.written(),
    {
        &self.out
    }

    /// Drains the unconsumed inbound bytes — they belong to the next
    /// message when the transport builds a fresh connection over them.
    pub fn take_rest(&mut self) -> (r: Vec<u8>)
        requires
            old(self).wf(),
        ensures
            final(self).wf(),
            final(self).written() == old(self).written(),
            r@ == old(self).stream(),
            final(self).stream() == Seq::<u8>::empty(),
    {
        self.reader.take_rest()
    }

    /// Hands over the outbound bytes and leaves the buffer empty.
    pub fn take_written(&mut self) -> (r: Vec<u8>)
        ensures
            final(self).wf() == old(self).wf(),
            final(self).stream() == old(self).stream(),
            final(self).written() == Seq::<u8>::empty(),
            r@ == old(self).written(),
    {
        let mut drained: Vec<u8> = Vec::new();
        core::mem::swap(&mut drained, &mut self.out);
        drained
    }
}

impl Connection<Request> {
    /// Reads one request from the stream.
    pub fn read(&mut self) -> (r: Result<Request, RequestError>)
        requires
            old(self).wf(),
        ensures
            final(self).wf(),
            final(self).written() == old(self).written(),
            match r {
                Ok(req) => req.headers.wf() && spec_read_request(old(self).stream()) == Ok::<
                    (RequestModel, Seq<u8>),
                    RequestError,
                >(((req.line.method, req.line.url@, req.line.version, req.headers@, req.body@),
                final(self).stream())),
                Err(e) => spec_read_request(old(self).stream()) == Err::<
                    (RequestModel, Seq<u8>),
                    RequestError,
                >(e),
            },
    {
        let line = match self.reader.read_line() {
            Ok(line) => line,
            Err(_) => {
                return Err(RequestError::IO(StreamError::EOF));
            },
        };
        let req_line = match RequestLine::from_line(line.as_slice()) {
            Ok(rl) => rl,
            Err(e) => {
                return Err(RequestError::RequestLine(e));
            },
        };
        let mut headers = match read_header_block(&mut self.reader) {
            Ok(h) => h,
            Err(HeaderBlockError::Eof) => {
                return Err(RequestError::IO(StreamError::EOF));
            },
            Err(HeaderBlockError::Field(e)) => {
                return Err(RequestError::Header(e));
            },
        };
        let body = match parse_body(&mut headers, &mut self.reader) {
            Ok(b) => b,
            Err(e) => {
                return Err(RequestError::Body(e));
            },
        };
        Ok(Request { line: req_line, headers, body })
    }

    /// Serializes the response onto the outbound buffer; the transport
    /// flushes it. A non-empty body records its length under
    /// `content-length` in the response first.
    pub fn respond(&mut self, response: &mut Response)
        requires
            old(self).wf(),
            old(response).headers.wf(),
        ensures
            final(self).wf(),
            final(self).stream() == old(self).stream(),
            final(response).headers.wf(),
            final(response).status_line == old(response).status_line,
            final(response).body == old(response).body,
            final(self).written() == old(self).written() + spec_serialize_response(
                old(response).status_line.version,
                old(response).status_line.status_code,
                old(response).headers@,
                old(response).body@,
            ),
    {
        response.write_to(&mut self.out);
    }
}

impl Connection<Response> {
    /// Reads one response from the stream.
    pub fn read(&mut self) -> (r: Result<Response, ResponseError>)
        requires
            old(self).wf(),
        ensures
            final(self).wf(),
            final(self).written() == old(self).written(),
            match r {
                Ok(resp) => resp.headers.wf() && spec_read_response(old(self).stream()) == Ok::<
                    (ResponseModel, Seq<u8>),
                    ResponseError,
                >(((resp.status_line.version, resp.status_line.status_code, resp.headers@,
                resp.body@), final(self).stream())),
                Err(e) => spec_read_response(old(self).stream()) == Err::<
                    (ResponseModel, Seq<u8>),
                    ResponseError,
                >(e),
            },
    {
        let line = match self.reader.read_line() {
            Ok(line) => line,
            Err(_) => {
                return Err(ResponseError::IO(StreamError::EOF));
            },
        };
        let status_line = match StatusLine::from_line(line.as_slice()) {
            Ok(sl) => sl,
            Err(e) => {
                return Err(ResponseError::StatusLine(e));
            },
        };
        let mut headers = match read_header_block(&mut self.reader) {
            Ok(h) => h,
            Err(HeaderBlockError::Eof) => {
                return Err(ResponseError::IO(StreamError::EOF));
            },
            Err(HeaderBlockError::Field(e)) => {
                return Err(ResponseError::Header(e));
            },
        };
        let body = match parse_body(&mut headers, &mut self.reader) {
            Ok(b) => b,
            Err(e) => {
                return Err(ResponseError::Body(e));
            },
        };
        Ok(Response { status_line, headers, body })
    }

    /// Serializes the request onto the outbound buffer; the transport
    /// flushes it. A non-empty body records its length under
    /// `content-length` in the request first.
    pub fn send(&mut self, request: &mut Request)
        requires
            old(self).wf(),
            old(request).headers.wf(),
        ensures
            final(self).wf(),
            final(self).stream() == old(self).stream(),
            final(request).headers.wf(),
            final(request).line == old(request).line,
            final(request).body == old(request).body,
            final(self).written() == old(self).written() + spec_serialize_request(
                old(request).line.method,
                old(request).line.url@,
                old(request).line.version,
                old(request).headers@,
                old(request).body@,
            ),
    {
        request.write_to(&mut self.out);
    }
}

/// Fragmentation independence: what a message parses to is a function of
/// the concatenated bytes alone. Two fragmentations with the same
/// concatenation give readers with equal views (`Connection::new` says
/// so), and every read's outcome is pinned to that view, so the fragments'
/// boundaries can never show through.
pub proof fn lemma_fragmentation_independence(a: Seq<Vec<u8>>, b: Seq<Vec<u8>>)
    requires
        spec_chunks_concat(a, 0) == spec_chunks_concat(b, 0),
    ensures
        spec_read_request(spec_chunks_concat(a, 0)) == spec_read_request(spec_chunks_concat(b, 0)),
        spec_read_response(spec_chunks_concat(a, 0)) == spec_read_response(
            spec_chunks_concat(b, 0),
        ),
{
}

/// Request round-trip: serializing a request with a clean target, a
/// recognized version, wire-clean headers and a bounded body, then
/// parsing the bytes back, recovers the request exactly — with
/// `content-length` recorded for a non-empty body — and consumes the
/// whole stream.
pub proof fn lemma_request_round_trip(
    m: Method,
    url: Seq<u8>,
    v: HttpVersion,
    es: Seq<Entry>,
    body: Seq<u8>,
)
    requires
        crate::request_line::wire_url(url),
        crate::version::spec_version_recognized(v),
        crate::headers::entries_sorted(es),
        forall|i: int| 0 <= i < es.len() ==> crate::headers::wire_entry(#[trigger] es[i]),
        crate::headers::spec_lookup(es, crate::body::spec_te_name()) == None::<Seq<u8>>,
        body.len() == 0 ==> crate::headers::spec_lookup(es, crate::body::spec_cl_name())
            == None::<Seq<u8>>,
        body.len() <= 65536,
    ensures
        spec_read_request(spec_serialize_request(m, url, v, es, body)) == Ok::<
            (RequestModel, Seq<u8>),
            RequestError,
        >(((m, url, v, crate::request::spec_headers_for_write(es, body), body),
        Seq::<u8>::empty())),
{
    let cl = crate::body::spec_cl_name();
    let te = crate::body::spec_te_name();
    let es2 = crate::request::spec_headers_for_write(es, body);
    let rl = crate::request_line::spec_serialize_request_line(m, url, v);
    let hb = crate::headers::spec_serialize_headers(es2);
    let s = spec_serialize_request(m, url, v, es, body);
    let digits = crate::numbers::spec_dec_bytes(body.len());

    // the headers that go on the wire stay sorted and wire-clean
    if body.len() > 0 {
        crate::headers::lemma_set_sorted(es, cl, digits);
        crate::numbers::lemma_dec_bytes_roundtrip(body.len());
        assert(crate::headers::wire_entry((cl, digits))) by {
            assert forall|j: int| 0 <= j < cl.len() implies crate::ascii::is_tchar(
                #[trigger] cl[j],
            ) by {
                assert(cl[0] == 99 && cl[1] == 111 && cl[2] == 110 && cl[3] == 116 && cl[4] == 101
                    && cl[5] == 110 && cl[6] == 116 && cl[7] == 45 && cl[8] == 108 && cl[9] == 101
                    && cl[10] == 110 && cl[11] == 103 && cl[12] == 116 && cl[13] == 104);
            }
            assert(crate::ascii::lower_seq(cl) =~= cl);
            assert forall|j: int| 0 <= j < digits.len() implies crate::ascii::is_field_byte(
                #[trigger] digits[j],
            ) && !crate::ascii::is_ascii_ws(digits[j]) by {
                assert(crate::numbers::is_digit(digits[j]));
            }
        }
        crate::headers::lemma_set_entries_from(es, cl, digits);
        assert forall|i: int| 0 <= i < es2.len() implies crate::headers::wire_entry(
            #[trigger] es2[i],
        ) by {
            if es2[i] != (cl, digits) {
                assert(es.contains(es2[i]));
                let w = choose|j: int| 0 <= j < es.len() && es[j] == es2[i];
                assert(crate::headers::wire_entry(es[w]));
            }
        }
        crate::headers::lemma_lookup_set(es, cl, digits, te);
        crate::headers::lemma_lookup_set(es, cl, digits, cl);
        assert(te != cl) by {
            assert(te.len() != cl.len());
        }
    }

    // the request line ends at the first CRLF and parses back
    crate::request_line::lemma_request_line_roundtrip(m, url, v, hb + body);
    assert(s =~= rl + (hb + body));
    let n = rl.len() - 2;
    assert(crate::ascii::spec_find_crlf(s) == Some(n as int));
    assert(s.take(n as int) == (rl + (hb + body)).take(n as int));
    assert(s.skip(n + 2int) == hb + body);

    // the header block parses back to the wire headers
    assert(Seq::<Entry>::empty() + es2 =~= es2);
    crate::headers::lemma_parse_serialized_entries(Seq::<Entry>::empty(), es2, body);
    assert(hb + body =~= crate::headers::spec_serialize_entries(es2) + seq![
        crate::ascii::CR,
        crate::ascii::LF,
    ] + body);

    // the body parses back under the framing the headers announce
    if body.len() == 0 {
        assert(spec_parse_body(es2, body) == Ok::<(Seq<Entry>, Seq<u8>, Seq<u8>), crate::errors::BodyError>(
            (es2, Seq::<u8>::empty(), body),
        ));
        assert(body =~= Seq::<u8>::empty());
    } else {
        assert(crate::numbers::spec_parse_dec(digits) == Some(body.len() as usize));
        assert(crate::body::spec_content_length(digits) == Some(body.len() as usize));
        assert(crate::body::spec_get_encoding(es2) == Ok::<crate::body::Encoding, crate::errors::BodyError>(
            crate::body::Encoding::Nothing(body.len() as usize),
        ));
        assert(body.take(body.len() as int) =~= body);
        assert(body.skip(body.len() as int) =~= Seq::<u8>::empty());
    }
}

} // verus!
