//! A step-by-step constructor for responses.

use vstd::prelude::*;

use crate::ascii::{append_slice, lower_seq};
use crate::errors::ServerError;
use crate::headers::{spec_set, Entry, Headers};
use crate::response::Response;
use crate::status_line::{StatusCode, StatusLine};
use crate::version::HttpVersion;

verus! {

/// Accumulates the parts of a response; `build` assembles them.
/// A fresh builder holds status 200, no headers and an empty body.
pub struct ResponseBuilder {
    status_line: StatusLine,
    headers: Headers,
    body: Vec<u8>,
}

impl ResponseBuilder {
    /// A builder for a `200` response with no headers and an empty body.
    pub fn new() -> (r: ResponseBuilder)
        ensures
            r.wf(),
            r.status_line() == (StatusLine { version: HttpVersion(1, 1), status_code: StatusCode::OK }),
            r.headers_view() == Seq::<Entry>::empty(),
            r.body_view() == Seq::<u8>::empty(),
    {
        let r = ResponseBuilder {
            status_line: StatusLine::new(StatusCode::OK),
            headers: Headers::new(),
            body: Vec::new(),
        };
        proof {
            assert(r.body@ =~= Seq::<u8>::empty());
        }
        r
    }

    /// The headers gathered so far.
    pub closed spec fn headers_view(&self) -> Seq<Entry> {
        self.headers@
    }

    /// The body gathered so far.
    pub closed spec fn body_view(&self) -> Seq<u8> {
        self.body@
    }

    /// The status line gathered so far.
    pub closed spec fn status_line(&self) -> StatusLine {
        self.status_line
    }

    /// The gathered headers stay sorted by name.
    pub closed spec fn wf(&self) -> bool {
        self.headers.wf()
    }

    /// Replaces the status line with one for the given code.
    pub fn set_status_code(&mut self, status_code: StatusCode)
        ensures
            final(self).status_line() == (StatusLine {
                version: HttpVersion(1, 1),
                status_code,
            }),
            final(self).headers_view() == old(self).headers_view(),
            final(self).body_view() == old(self).body_view(),
            final(self).wf() == old(self).wf(),
    {
        self.status_line = StatusLine::new(status_code);
    }

    /// Writes one header field, overwriting any prior value.
    pub fn add_header(&mut self, name: &[u8], value: &[u8])
        requires
            old(self).wf(),
        ensures
            final(self).wf(),
            final(self).status_line() == old(self).status_line(),
            final(self).body_view() == old(self).body_view(),
            final(self).headers_view() == spec_set(
                old(self).headers_view(),
                lower_seq(name@),
                value@,
            ),
    {
        self.headers.set(name, value);
    }

    /// Appends bytes to the body.
    pub fn add_to_body(&mut self, body: &[u8]) -> (r: Result<(), ServerError>)
        ensures
            r == Ok::<(), ServerError>(()),
            final(self).status_line() == old(self).status_line(),
            final(self).headers_view() == old(self).headers_view(),
            final(self).wf() == old(self).wf(),
            final(self).body_view() == old(self).body_view() + body@,
    {
        append_slice(&mut self.body, body);
        Ok(())
    }

    /// Assembles the response.
    pub fn build(self) -> (r: Response)
        ensures
            r.status_line == self.status_line(),
            r.headers@ == self.headers_view(),
            r.headers.wf() == self.wf(),
            r.body@ == self.body_view(),
    {
        Response { status_line: self.status_line, headers: self.headers, body: self.body }
    }
}

impl Default for ResponseBuilder {
    /// The same fresh builder `new` yields.
    fn default() -> (r: ResponseBuilder)
        ensures
            r.wf(),
            r.status_line() == (StatusLine { version: HttpVersion(1, 1), status_code: StatusCode::OK }),
            r.headers_view() == Seq::<Entry>::empty(),
            r.body_view() == Seq::<u8>::empty(),
    {
        ResponseBuilder::new()
    }
}

} // verus!
