//! A fluent constructor for requests.

use vstd::prelude::*;

use crate::ascii::{lower_seq, to_vec_bytes};
use crate::headers::{spec_add, Entry, Headers};
use crate::method::Method;
use crate::request::Request;
use crate::request_line::RequestLine;
use crate::version::HttpVersion;

verus! {

/// Accumulates the parts of a request; `build` assembles them.
pub struct RequestBuilder {
    request_line: RequestLine,
    headers: Headers,
    body: Vec<u8>,
}

impl RequestBuilder {
    /// Starts a request: the given method and target, version `1.1`, no
    /// headers, empty body.
    pub fn new(method: Method, url: &[u8]) -> (r: RequestBuilder)
        ensures
            r.wf(),
            r.request_line().method == method,
            r.request_line().url@ == url@,
            r.request_line().version == HttpVersion(1, 1),
            r.headers_view() == Seq::<Entry>::empty(),
            r.body_view() == Seq::<u8>::empty(),
    {
        let r = RequestBuilder {
            request_line: RequestLine::from_parts(method, to_vec_bytes(url), HttpVersion(1, 1)),
            headers: Headers::new(),
            body: Vec::new(),
        };
        proof {
            assert(r.body@ =~= Seq::<u8>::empty());
        }
        r
    }

    /// The headers gathered so far.
    pub closed spec fn headers_view(&self) -> Seq<Entry> {
        self.headers@
    }

    /// The body gathered so far.
    pub closed spec fn body_view(&self) -> Seq<u8> {
        self.body@
    }

    /// The request line gathered so far.
    pub closed spec fn request_line(&self) -> RequestLine {
        self.request_line
    }

    /// The gathered headers stay sorted by name.
    pub closed spec fn wf(&self) -> bool {
        self.headers.wf()
    }

    /// Adds one header field, folding a duplicate name onto the old value.
    pub fn header(self, name: &[u8], value: &[u8]) -> (r: RequestBuilder)
        requires
            self.wf(),
        ensures
            r.wf(),
            r.request_line() == self.request_line(),
            r.body_view() == self.body_view(),
            r.headers_view() == spec_add(self.headers_view(), lower_seq(name@), value@),
    {
        let mut b = self;
        b.headers.add(name, value);
        b
    }

    /// Replaces the body.
    pub fn body(self, body: Vec<u8>) -> (r: RequestBuilder)
        ensures
            r.wf() == self.wf(),
            r.request_line() == self.request_line(),
            r.headers_view() == self.headers_view(),
            r.body_view() == body@,
    {
        let mut b = self;
        b.body = body;
        b
    }

    /// Assembles the request.
    pub fn build(self) -> (r: Request)
        ensures
            r.line == self.request_line(),
            r.headers@ == self.headers_view(),
            r.headers.wf() == self.wf(),
            r.body@ == self.body_view(),
    {
        Request { line: self.request_line, headers: self.headers, body: self.body }
    }
}

} // verus!
