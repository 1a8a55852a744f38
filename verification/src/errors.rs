//! Error types for every layer of the message path.

use vstd::prelude::*;

verus! {

/// An unrecognized `HTTP/<major>.<minor>` literal.
#[derive(Debug, PartialEq, Eq)]
pub enum VersionError {
    InvalidHTTPVersion,
}

/// Failures while parsing a request line.
#[derive(Debug, PartialEq, Eq)]
pub enum RequestLineError {
    MalformedRequestLine,
    InvalidMehtod,
    InvalidHTTPVersion(VersionError),
}

/// Failures while parsing a status line.
#[derive(Debug, PartialEq, Eq)]
pub enum StatusLineError {
    MalformedStatusLine,
    InvalidStatusCode,
    InvalidHTTPVersion(VersionError),
}

/// Failures while parsing a header field line or resolving body framing.
#[derive(Debug, PartialEq, Eq)]
pub enum HeadersError {
    MalformedFieldLine,
    InvalidHeaderFields,
    InvalidContentLength,
}

/// Failures of the byte stream feeding the parser.
#[derive(Debug, PartialEq, Eq)]
pub enum StreamError {
    EOF,
    IO,
}

/// Failures while decoding a message body.
#[derive(Debug, PartialEq, Eq)]
pub enum BodyError {
    Header(HeadersError),
    TooLong,
    MalformedChunkedSize,
    MalformedChunkedBody,
    IO(StreamError),
}

/// Failures while reading one request from a stream.
#[derive(Debug, PartialEq, Eq)]
pub enum RequestError {
    RequestLine(RequestLineError),
    Header(HeadersError),
    Body(BodyError),
    MalformedRequest,
    BodyTooLong,
    MalformedChunkedSize,
    MalformedChunkedBody,
    IO(StreamError),
}

/// Failures while reading one response from a stream.
#[derive(Debug, PartialEq, Eq)]
pub enum ResponseError {
    StatusLine(StatusLineError),
    Header(HeadersError),
    Body(BodyError),
    MalformedResponse,
    IO(StreamError),
}

/// Failures surfaced by the server dispatcher.
#[derive(Debug, PartialEq, Eq)]
pub enum ServerError {
    InternalError,
    IO,
}

/// Failures surfaced by the client send path.
#[derive(Debug, PartialEq, Eq)]
pub enum ClientError {
    InternalError,
    UrlNotFound,
    ResponseError(ResponseError),
    IO,
}

} // verus!
