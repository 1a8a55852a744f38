//! The request line: `method SP request-target SP HTTP-version` (RFC 9112
//! section 3).

use vstd::prelude::*;

use crate::ascii::{append_slice, find_byte, spec_find_byte, to_vec_bytes, CR, LF, SP};
use crate::errors::{RequestLineError, VersionError};
use crate::method::{lemma_method_bytes_tchar, method_bytes, spec_method_bytes, spec_method_parse,
    Method};
use crate::numbers::dec_bytes;
use crate::version::{lemma_version_bytes_roundtrip, parse_version_part, spec_parse_version_part,
    spec_version_bytes, spec_version_recognized, HttpVersion};

verus! {

/// A parsed request line.
#[derive(Debug, PartialEq, Eq)]
pub struct RequestLine {
    pub method: Method,
    pub url: Vec<u8>,
    pub version: HttpVersion,
}

/// What parsing a request line yields: the line must split on single
/// spaces into exactly three tokens — a method, the target kept verbatim,
/// and a version token.
pub open spec fn spec_parse_request_line(line: Seq<u8>) -> Result<
    (Method, Seq<u8>, HttpVersion),
    RequestLineError,
> {
    match spec_find_byte(line, SP) {
        None => Err(RequestLineError::MalformedRequestLine),
        Some(i) => {
            let rest = line.skip(i + 1);
            match spec_find_byte(rest, SP) {
                None => Err(RequestLineError::MalformedRequestLine),
                Some(j) => {
                    let url = rest.take(j);
                    let vpart = rest.skip(j + 1);
                    if spec_find_byte(vpart, SP) != None::<int> {
                        Err(RequestLineError::MalformedRequestLine)
                    } else {
                        match spec_method_parse(line.take(i)) {
                            Err(e) => Err(e),
                            Ok(method) => match spec_parse_version_part(vpart) {
                                None => Err(RequestLineError::MalformedRequestLine),
                                Some(Err(e)) => Err(RequestLineError::InvalidHTTPVersion(e)),
                                Some(Ok(version)) => Ok((method, url, version)),
                            },
                        }
                    }
                },
            }
        },
    }
}

/// The wire form of a request line, CRLF included.
pub open spec fn spec_serialize_request_line(m: Method, url: Seq<u8>, v: HttpVersion) -> Seq<u8> {
    spec_method_bytes(m) + seq![SP] + url + seq![SP] + spec_version_bytes(v) + seq![CR, LF]
}

impl RequestLine {
    /// Parses a request line (without its CRLF).
    pub fn from_line(line: &[u8]) -> (r: Result<RequestLine, RequestLineError>)
        ensures
            match r {
                Ok(rl) => spec_parse_request_line(line@) == Ok::<
                    (Method, Seq<u8>, HttpVersion),
                    RequestLineError,
                >((rl.method, rl.url@, rl.version)),
                Err(e) => spec_parse_request_line(line@) == Err::<
                    (Method, Seq<u8>, HttpVersion),
                    RequestLineError,
                >(e),
            },
    {
        let n = line.len();
        let i = match find_byte(line, SP) {
            Some(i) => i,
            None => {
                return Err(RequestLineError::MalformedRequestLine);
            },
        };
        let rest = &line[i + 1..n];
        let m = rest.len();
        let j = match find_byte(rest, SP) {
            Some(j) => j,
            None => {
                proof {
                    assert(rest@ =~= line@.skip(i + 1));
                }
                return Err(RequestLineError::MalformedRequestLine);
            },
        };
        proof {
            assert(rest@ =~= line@.skip(i + 1));
        }
        let url = &rest[0..j];
        let vpart = &rest[j + 1..m];
        proof {
            assert(url@ =~= line@.skip(i + 1).take(j as int));
            assert(vpart@ =~= line@.skip(i + 1).skip(j + 1));
        }
        if find_byte(vpart, SP).is_some() {
            return Err(RequestLineError::MalformedRequestLine);
        }
        let name = &line[0..i];
        proof {
            assert(name@ =~= line@.take(i as int));
        }
        let method = match Method::parse(name) {
            Ok(m) => m,
            Err(e) => {
                return Err(e);
            },
        };
        let version = match parse_version_part(vpart) {
            None => {
                return Err(RequestLineError::MalformedRequestLine);
            },
            Some(Err(e)) => {
                return Err(RequestLineError::InvalidHTTPVersion(e));
            },
            Some(Ok(v)) => v,
        };
        Ok(RequestLine { method, url: to_vec_bytes(url), version })
    }

    /// Builds a request line from its parts.
    pub fn from_parts(method: Method, url: Vec<u8>, version: HttpVersion) -> (r: RequestLine)
        ensures
            r.method == method,
            r.url == url,
            r.version == version,
    {
        RequestLine { method, url, version }
    }

    /// Appends the wire form of the line: `method SP target SP
    /// HTTP/major.minor CRLF`, exactly.
    pub fn write_to(&self, out: &mut Vec<u8>)
        ensures
            final(out)@ == old(out)@ + spec_serialize_request_line(
                self.method,
                self.url@,
                self.version,
            ),
    {
        let ghost base = out@;
        let name = method_bytes(&self.method);
        append_slice(out, name.as_slice());
        out.push(SP);
        append_slice(out, self.url.as_slice());
        out.push(SP);
        out.push(72);
        out.push(84);
        out.push(84);
        out.push(80);
        out.push(47);
        let maj = dec_bytes(self.version.0 as usize);
        append_slice(out, maj.as_slice());
        out.push(46);
        let min = dec_bytes(self.version.1 as usize);
        append_slice(out, min.as_slice());
        out.push(CR);
        out.push(LF);
        proof {
            assert(out@ =~= base + spec_serialize_request_line(
                self.method,
                self.url@,
                self.version,
            ));
        }
    }
}

impl Default for RequestLine {
    /// A `GET` of the empty target over version `1.1`.
    fn default() -> (r: RequestLine)
        ensures
            r.method == Method::Get,
            r.url@ == Seq::<u8>::empty(),
            r.version == HttpVersion(1, 1),
    {
        let r = RequestLine { method: Method::Get, url: Vec::new(), version: HttpVersion(1, 1) };
        proof {
            assert(r.url@ =~= Seq::<u8>::empty());
        }
        r
    }
}

/// A target that can survive the wire: no space (the token separator) and
/// no carriage return (the line terminator's first byte).
pub open spec fn wire_url(url: Seq<u8>) -> bool {
    forall|j: int| 0 <= j < url.len() ==> (#[trigger] url[j]) != SP && url[j] != CR
}

/// Request-line round-trip: the wire form of a clean target and a
/// recognized version ends at the first CRLF of the stream, parses back
/// to the same parts, and leaves exactly what followed it.
pub proof fn lemma_request_line_roundtrip(m: Method, url: Seq<u8>, v: HttpVersion, rest: Seq<u8>)
    requires
        wire_url(url),
        spec_version_recognized(v),
    ensures
        ({
            let wire = spec_serialize_request_line(m, url, v);
            let n = wire.len() - 2;
            &&& wire.len() >= 2
            &&& crate::ascii::spec_find_crlf(wire + rest) == Some(n)
            &&& spec_parse_request_line((wire + rest).take(n)) == Ok::<
                (Method, Seq<u8>, HttpVersion),
                RequestLineError,
            >((m, url, v))
            &&& (wire + rest).skip(n + 2) == rest
        }),
{
    let mb = spec_method_bytes(m);
    let vb = spec_version_bytes(v);
    let content = mb + seq![SP] + url + seq![SP] + vb;
    let wire = spec_serialize_request_line(m, url, v);
    let s = wire + rest;
    lemma_method_bytes_tchar(m);
    lemma_version_bytes_roundtrip(v);
    assert(wire =~= content + seq![CR, LF]);
    assert(s =~= content + seq![CR, LF] + rest);
    // the line holds no CR, so the terminator is the stream's first CRLF
    assert forall|j: int| 0 <= j < content.len() implies content[j] != CR by {
        if j < mb.len() {
            assert(content[j] == mb[j] && crate::ascii::is_tchar(mb[j]));
        } else if j == mb.len() {
            assert(content[j] == SP);
        } else if j < mb.len() + 1 + url.len() {
            assert(content[j] == url[j - mb.len() - 1]);
        } else if j == mb.len() + 1 + url.len() {
            assert(content[j] == SP);
        } else {
            assert(content[j] == vb[j - mb.len() - url.len() - 2]);
        }
    }
    crate::ascii::lemma_no_cr_no_crlf(content);
    crate::ascii::lemma_find_crlf_boundary(content, rest);
    assert(crate::ascii::spec_find_crlf(s) == Some(content.len() as int));
    assert(content.len() == wire.len() - 2);
    assert(s.take(content.len() as int) =~= content);
    assert(s.skip(content.len() + 2int) =~= rest);
    // first space: right after the method name
    assert forall|j: int| 0 <= j < mb.len() implies mb[j] != SP by {
        assert(crate::ascii::is_tchar(mb[j]));
    }
    let after_m = seq![SP] + url + seq![SP] + vb;
    assert(content =~= mb + after_m);
    assert(after_m[0] == SP);
    crate::ascii::lemma_find_byte_boundary(mb, after_m, SP);
    assert(spec_find_byte(content, SP) == Some(mb.len() as int));
    assert(content.take(mb.len() as int) =~= mb);
    // second space: right after the target
    let rest1 = content.skip(mb.len() + 1int);
    assert(rest1 =~= url + (seq![SP] + vb));
    assert((seq![SP] + vb)[0] == SP);
    crate::ascii::lemma_find_byte_boundary(url, seq![SP] + vb, SP);
    assert(spec_find_byte(rest1, SP) == Some(url.len() as int));
    assert(rest1.take(url.len() as int) =~= url);
    // the version token holds no space at all
    let vpart = rest1.skip(url.len() + 1int);
    assert(vpart =~= vb);
    crate::ascii::lemma_find_byte_none(vb, SP);
    // the method name parses back to the method
    assert(spec_method_parse(mb) == Ok::<Method, RequestLineError>(m));
}

} // verus!
