//! The request message: request line, header block, fully-buffered body.

use vstd::prelude::*;

use crate::headers::{spec_serialize_headers, spec_set, Entry, Headers};
use crate::body::spec_cl_name;
use crate::method::Method;
use crate::numbers::{dec_bytes, spec_dec_bytes};
use crate::request_line::{spec_serialize_request_line, RequestLine};
use crate::version::HttpVersion;

verus! {

/// A fully-buffered request.
#[derive(Debug)]
pub struct Request {
    pub line: RequestLine,
    pub headers: Headers,
    pub body: Vec<u8>,
}

/// The headers a message carries on the wire: when the body is non-empty,
/// `content-length` is set to its length; otherwise they are untouched.
pub open spec fn spec_headers_for_write(es: Seq<Entry>, body: Seq<u8>) -> Seq<Entry> {
    if body.len() > 0 {
        spec_set(es, spec_cl_name(), spec_dec_bytes(body.len()))
    } else {
        es
    }
}

/// The wire form of a request: request line, header block (with
/// `content-length` recorded for a non-empty body), then the body bytes.
pub open spec fn spec_serialize_request(
    m: Method,
    url: Seq<u8>,
    v: HttpVersion,
    es: Seq<Entry>,
    body: Seq<u8>,
) -> Seq<u8> {
    spec_serialize_request_line(m, url, v) + spec_serialize_headers(
        spec_headers_for_write(es, body),
    ) + body
}

impl Request {
    /// The request's method.
    pub fn get_method(&self) -> (r: &Method)
        ensures
            r == self.line.method,
    {
        &self.line.method
    }

    /// The request target, verbatim.
    pub fn get_url(&self) -> (r: &[u8])
        ensures
            r@ == self.line.url@,
    {
        self.line.url.as_slice()
    }

    /// The buffered body.
    pub fn get_body(&self) -> (r: &[u8])
        ensures
            r@ == self.body@,
    {
        self.body.as_slice()
    }

    /// Appends the wire form of the request. The message is not streamed,
    /// so a non-empty body records its length under `content-length`
    /// first, overwriting any prior value.
    pub fn write_to(&mut self, out: &mut Vec<u8>)
        requires
            old(self).headers.wf(),
        ensures
            final(self).headers.wf(),
            final(self).line == old(self).line,
            final(self).body == old(self).body,
            final(self).headers@ == spec_headers_for_write(old(self).headers@, old(self).body@),
            final(out)@ == old(out)@ + spec_serialize_request(
                old(self).line.method,
                old(self).line.url@,
                old(self).line.version,
                old(self).headers@,
                old(self).body@,
            ),
    {
        self.line.write_to(out);
        if self.body.len() > 0 {
            let cl_name = [99u8, 111, 110, 116, 101, 110, 116, 45, 108, 101, 110, 103, 116, 104];
            proof {
                assert(cl_name@ =~= spec_cl_name());
                assert(crate::ascii::lower_seq(cl_name@) =~= spec_cl_name());
            }
            let digits = dec_bytes(self.body.len());
            self.headers.set(&cl_name, digits.as_slice());
        }
        self.headers.write_to(out);
        crate::ascii::append_slice(out, self.body.as_slice());
        proof {
            assert(out@ =~= old(out)@ + spec_serialize_request(
                old(self).line.method,
                old(self).line.url@,
                old(self).line.version,
                old(self).headers@,
                old(self).body@,
            ));
        }
    }
}

} // verus!
