//! The response message: status line, header block, fully-buffered body.

use vstd::prelude::*;

use crate::headers::{spec_serialize_headers, Entry, Headers};
use crate::request::spec_headers_for_write;
use crate::body::spec_cl_name;
use crate::numbers::dec_bytes;
use crate::status_line::{spec_serialize_status_line, StatusCode, StatusLine};
use crate::version::HttpVersion;

verus! {

/// A fully-buffered response.
#[derive(Debug)]
pub struct Response {
    pub status_line: StatusLine,
    pub headers: Headers,
    pub body: Vec<u8>,
}

/// The wire form of a response: status line, header block (with
/// `content-length` recorded for a non-empty body), then the body bytes.
pub open spec fn spec_serialize_response(
    v: HttpVersion,
    c: StatusCode,
    es: Seq<Entry>,
    body: Seq<u8>,
) -> Seq<u8> {
    spec_serialize_status_line(v, c) + spec_serialize_headers(spec_headers_for_write(es, body))
        + body
}

impl Response {
    /// An empty-bodied response with the given status over version `1.1`.
    pub fn new(status_code: StatusCode) -> (r: Response)
        ensures
            r.status_line.version == HttpVersion(1, 1),
            r.status_line.status_code == status_code,
            r.headers@ == Seq::<Entry>::empty(),
            r.headers.wf(),
            r.body@ == Seq::<u8>::empty(),
    {
        let r = Response { status_line: StatusLine::new(status_code), headers: Headers::new(), body: Vec::new() };
        proof {
            assert(r.body@ =~= Seq::<u8>::empty());
        }
        r
    }

    /// The canonical internal failure reply: status 500, no extra headers,
    /// empty body.
    pub fn internal_error() -> (r: Response)
        ensures
            r.status_line.version == HttpVersion(1, 1),
            r.status_line.status_code == StatusCode::InternalServerError,
            r.headers@ == Seq::<Entry>::empty(),
            r.headers.wf(),
            r.body@ == Seq::<u8>::empty(),
    {
        Response::new(StatusCode::InternalServerError)
    }

    /// Appends the wire form of the response. The message is not streamed,
    /// so a non-empty body records its length under `content-length`
    /// first, overwriting any prior value.
    pub fn write_to(&mut self, out: &mut Vec<u8>)
        requires
            old(self).headers.wf(),
        ensures
            final(self).headers.wf(),
            final(self).status_line == old(self).status_line,
            final(self).body == old(self).body,
            final(self).headers@ == spec_headers_for_write(old(self).headers@, old(self).body@),
            final(out)@ == old(out)@ + spec_serialize_response(
                old(self).status_line.version,
                old(self).status_line.status_code,
                old(self).headers@,
                old(self).body@,
            ),
    {
        self.status_line.write_to(out);
        if self.body.len() > 0 {
            let cl_name = [99u8, 111, 110, 116, 101, 110, 116, 45, 108, 101, 110, 103, 116, 104];
            proof {
                assert(cl_name@ =~= spec_cl_name());
                assert(crate::ascii::lower_seq(cl_name@) =~= spec_cl_name());
            }
            let digits = dec_bytes(self.body.len());
            self.headers.set(&cl_name, digits.as_slice());
        }
        self.headers.write_to(out);
        crate::ascii::append_slice(out, self.body.as_slice());
        proof {
            assert(out@ =~= old(out)@ + spec_serialize_response(
                old(self).status_line.version,
                old(self).status_line.status_code,
                old(self).headers@,
                old(self).body@,
            ));
        }
    }
}

} // verus!
