//! The status line: `HTTP-version SP status-code SP [ reason-phrase ]`
//! (RFC 9112 section 4).

use vstd::prelude::*;

use crate::ascii::{append_slice, bytes_eq, find_byte, spec_find_byte, CR, LF, SP};
use crate::errors::{StatusLineError, VersionError};
use crate::version::{parse_version_part, spec_parse_version_part, spec_version_bytes, HttpVersion};

verus! {

/// The status codes the library knows, with their canonical reasons.
#[derive(Debug, PartialEq, Eq, Structural, Clone, Copy)]
pub enum StatusCode {
    OK,
    BadRequest,
    NotFound,
    MethodNotAllowed,
    InternalServerError,
}

/// The three decimal digits of each status code.
pub open spec fn spec_status_code_bytes(c: StatusCode) -> Seq<u8> {
    match c {
        StatusCode::OK => seq![50u8, 48, 48],
        StatusCode::BadRequest => seq![52u8, 48, 48],
        StatusCode::NotFound => seq![52u8, 48, 52],
        StatusCode::MethodNotAllowed => seq![52u8, 48, 53],
        StatusCode::InternalServerError => seq![53u8, 48, 48],
    }
}

/// The canonical reason phrase of each status code.
pub open spec fn spec_status_reason_bytes(c: StatusCode) -> Seq<u8> {
    match c {
        StatusCode::OK => seq![79u8, 107],
        StatusCode::BadRequest => seq![66u8, 97, 100, 32, 82, 101, 113, 117, 101, 115, 116],
        StatusCode::NotFound => seq![78u8, 111, 116, 32, 70, 111, 117, 110, 100],
        StatusCode::MethodNotAllowed => seq![
            77u8, 101, 116, 104, 111, 100, 32, 78, 111, 116, 32, 65, 108, 108, 111, 119, 101, 100,
        ],
        StatusCode::InternalServerError => seq![
            73u8, 110, 116, 101, 114, 110, 97, 108, 32, 83, 101, 114, 118, 101, 114, 32, 69, 114,
            114, 111, 114,
        ],
    }
}

/// What parsing a status-code token yields: the unique known code the
/// bytes spell, or `InvalidStatusCode`.
pub open spec fn spec_status_parse(b: Seq<u8>) -> Result<StatusCode, StatusLineError> {
    if b == spec_status_code_bytes(StatusCode::OK) {
        Ok(StatusCode::OK)
    } else if b == spec_status_code_bytes(StatusCode::BadRequest) {
        Ok(StatusCode::BadRequest)
    } else if b == spec_status_code_bytes(StatusCode::NotFound) {
        Ok(StatusCode::NotFound)
    } else if b == spec_status_code_bytes(StatusCode::MethodNotAllowed) {
        Ok(StatusCode::MethodNotAllowed)
    } else if b == spec_status_code_bytes(StatusCode::InternalServerError) {
        Ok(StatusCode::InternalServerError)
    } else {
        Err(StatusLineError::InvalidStatusCode)
    }
}

impl StatusCode {
    /// The three digits of the code, as bytes.
    pub fn to_code(&self) -> (r: Vec<u8>)
        ensures
            r@ == spec_status_code_bytes(*self),
    {
        let mut out: Vec<u8> = Vec::new();
        match self {
            StatusCode::OK => {
                out.push(50);
                out.push(48);
                out.push(48);
            },
            StatusCode::BadRequest => {
                out.push(52);
                out.push(48);
                out.push(48);
            },
            StatusCode::NotFound => {
                out.push(52);
                out.push(48);
                out.push(52);
            },
            StatusCode::MethodNotAllowed => {
                out.push(52);
                out.push(48);
                out.push(53);
            },
            StatusCode::InternalServerError => {
                out.push(53);
                out.push(48);
                out.push(48);
            },
        }
        proof {
            assert(out@ =~= spec_status_code_bytes(*self));
        }
        out
    }

    /// The canonical reason phrase of the code, as bytes.
    pub fn to_reason(&self) -> (r: Vec<u8>)
        ensures
            r@ == spec_status_reason_bytes(*self),
    {
        let mut out: Vec<u8> = Vec::new();
        match self {
            StatusCode::OK => {
                out.push(79);
                out.push(107);
            },
            StatusCode::BadRequest => {
                let bs = [66u8, 97, 100, 32, 82, 101, 113, 117, 101, 115, 116];
                append_slice(&mut out, &bs);
            },
            StatusCode::NotFound => {
                let bs = [78u8, 111, 116, 32, 70, 111, 117, 110, 100];
                append_slice(&mut out, &bs);
            },
            StatusCode::MethodNotAllowed => {
                let bs = [
                    77u8, 101, 116, 104, 111, 100, 32, 78, 111, 116, 32, 65, 108, 108, 111, 119,
                    101, 100,
                ];
                append_slice(&mut out, &bs);
            },
            StatusCode::InternalServerError => {
                let bs = [
                    73u8, 110, 116, 101, 114, 110, 97, 108, 32, 83, 101, 114, 118, 101, 114, 32,
                    69, 114, 114, 111, 114,
                ];
                append_slice(&mut out, &bs);
            },
        }
        proof {
            assert(out@ =~= spec_status_reason_bytes(*self));
        }
        out
    }

    /// Parses a status-code token; exactly the five known codes are
    /// accepted.
    pub fn parse(bytes: &[u8]) -> (r: Result<StatusCode, StatusLineError>)
        ensures
            r == spec_status_parse(bytes@),
    {
        let codes = [
            StatusCode::OK,
            StatusCode::BadRequest,
            StatusCode::NotFound,
            StatusCode::MethodNotAllowed,
            StatusCode::InternalServerError,
        ];
        let mut i: usize = 0;
        while i < 5
            invariant
                i <= 5,
                codes@.len() == 5,
                forall|j: int| 0 <= j < i ==> bytes@ != spec_status_code_bytes(codes@[j]),
                codes@ =~= seq![
                    StatusCode::OK,
                    StatusCode::BadRequest,
                    StatusCode::NotFound,
                    StatusCode::MethodNotAllowed,
                    StatusCode::InternalServerError,
                ],
            decreases 5 - i,
        {
            let digits = codes[i].to_code();
            if bytes_eq(bytes, digits.as_slice()) {
                return Ok(codes[i]);
            }
            i += 1;
        }
        proof {
            assert(bytes@ != spec_status_code_bytes(codes@[0]));
            assert(bytes@ != spec_status_code_bytes(codes@[1]));
            assert(bytes@ != spec_status_code_bytes(codes@[2]));
            assert(bytes@ != spec_status_code_bytes(codes@[3]));
            assert(bytes@ != spec_status_code_bytes(codes@[4]));
        }
        Err(StatusLineError::InvalidStatusCode)
    }
}

/// A parsed status line; the reason phrase is derived from the code.
#[derive(Debug, PartialEq, Eq, Structural)]
pub struct StatusLine {
    pub version: HttpVersion,
    pub status_code: StatusCode,
}

/// What parsing a status line yields: a version token, a single space, a
/// known status code, and an optional reason phrase that is ignored.
pub open spec fn spec_parse_status_line(line: Seq<u8>) -> Result<
    (HttpVersion, StatusCode),
    StatusLineError,
> {
    match spec_find_byte(line, SP) {
        None => Err(StatusLineError::MalformedStatusLine),
        Some(i) => {
            let rest = line.skip(i + 1);
            let code_bytes = match spec_find_byte(rest, SP) {
                None => rest,
                Some(j) => rest.take(j),
            };
            match spec_parse_version_part(line.take(i)) {
                None => Err(StatusLineError::MalformedStatusLine),
                Some(Err(e)) => Err(StatusLineError::InvalidHTTPVersion(e)),
                Some(Ok(version)) => match spec_status_parse(code_bytes) {
                    Err(e) => Err(e),
                    Ok(code) => Ok((version, code)),
                },
            }
        },
    }
}

/// The wire form of a status line, CRLF included; the reason is the
/// code's canonical one.
pub open spec fn spec_serialize_status_line(v: HttpVersion, c: StatusCode) -> Seq<u8> {
    spec_version_bytes(v) + seq![SP] + spec_status_code_bytes(c) + seq![SP]
        + spec_status_reason_bytes(c) + seq![CR, LF]
}

impl StatusLine {
    /// A status line for the code over version `1.1`.
    pub fn new(status_code: StatusCode) -> (r: StatusLine)
        ensures
            r.version == HttpVersion(1, 1),
            r.status_code == status_code,
    {
        StatusLine { version: HttpVersion(1, 1), status_code }
    }

    /// Parses a status line (without its CRLF).
    pub fn from_line(line: &[u8]) -> (r: Result<StatusLine, StatusLineError>)
        ensures
            match r {
                Ok(sl) => spec_parse_status_line(line@) == Ok::<
                    (HttpVersion, StatusCode),
                    StatusLineError,
                >((sl.version, sl.status_code)),
                Err(e) => spec_parse_status_line(line@) == Err::<
                    (HttpVersion, StatusCode),
                    StatusLineError,
                >(e),
            },
    {
        let n = line.len();
        let i = match find_byte(line, SP) {
            Some(i) => i,
            None => {
                return Err(StatusLineError::MalformedStatusLine);
            },
        };
        let rest = &line[i + 1..n];
        let m = rest.len();
        proof {
            assert(rest@ =~= line@.skip(i + 1));
        }
        let code_bytes = match find_byte(rest, SP) {
            None => rest,
            Some(j) => &rest[0..j],
        };
        let vpart = &line[0..i];
        proof {
            assert(vpart@ =~= line@.take(i as int));
        }
        let version = match parse_version_part(vpart) {
            None => {
                return Err(StatusLineError::MalformedStatusLine);
            },
            Some(Err(e)) => {
                return Err(StatusLineError::InvalidHTTPVersion(e));
            },
            Some(Ok(v)) => v,
        };
        let status_code = match StatusCode::parse(code_bytes) {
            Ok(c) => c,
            Err(e) => {
                return Err(e);
            },
        };
        Ok(StatusLine { version, status_code })
    }

    /// Appends the wire form of the line: `HTTP/major.minor SP code SP
    /// reason CRLF`, with the code's canonical reason.
    pub fn write_to(&self, out: &mut Vec<u8>)
        ensures
            final(out)@ == old(out)@ + spec_serialize_status_line(self.version, self.status_code),
    {
        let ghost base = out@;
        out.push(72);
        out.push(84);
        out.push(84);
        out.push(80);
        out.push(47);
        let maj = crate::numbers::dec_bytes(self.version.0 as usize);
        append_slice(out, maj.as_slice());
        out.push(46);
        let min = crate::numbers::dec_bytes(self.version.1 as usize);
        append_slice(out, min.as_slice());
        out.push(SP);
        let code = self.status_code.to_code();
        append_slice(out, code.as_slice());
        out.push(SP);
        let reason = self.status_code.to_reason();
        append_slice(out, reason.as_slice());
        out.push(CR);
        out.push(LF);
        proof {
            assert(out@ =~= base + spec_serialize_status_line(self.version, self.status_code));
        }
    }
}

} // verus!
