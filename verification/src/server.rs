//! The server dispatcher's decisions: when a connection must close after a
//! response, and which read errors mean the peer simply went away. The
//! accept loop itself performs I/O and lives with the transport; it asks
//! these functions what to do.

use vstd::prelude::*;

use crate::errors::RequestError;
use crate::headers::{spec_close_token, spec_connection_name, spec_field_contains, spec_lookup,
    Entry};
use crate::request::Request;
use crate::response::Response;
use crate::version::HttpVersion;

verus! {

/// The bytes of the `keep-alive` token.
pub open spec fn spec_keep_alive_token() -> Seq<u8> {
    seq![107u8, 101, 101, 112, 45, 97, 108, 105, 118, 101]
}

/// Whether the `connection` field of the given headers contains the token,
/// as a case-insensitive member of its comma-separated list.
pub open spec fn spec_connection_has_token(es: Seq<Entry>, tok: Seq<u8>) -> bool {
    match spec_lookup(es, spec_connection_name()) {
        Some(v) => spec_field_contains(v, tok),
        None => false,
    }
}

/// The persistent-connection rule: close when the request is `HTTP/1.0`
/// without `keep-alive`, or when either side's `connection` field
/// contains `close`.
pub open spec fn spec_should_close(
    version: HttpVersion,
    req_headers: Seq<Entry>,
    resp_headers: Seq<Entry>,
) -> bool {
    ||| (version == HttpVersion(1, 0) && !spec_connection_has_token(
        req_headers,
        spec_keep_alive_token(),
    ))
    ||| spec_connection_has_token(req_headers, spec_close_token())
    ||| spec_connection_has_token(resp_headers, spec_close_token())
}

/// Decides whether the connection is closed after this exchange.
pub fn should_close(req: &Request, resp: &Response) -> (r: bool)
    ensures
        r == spec_should_close(req.line.version, req.headers@, resp.headers@),
{
    let connection_name = [67u8, 111, 110, 110, 101, 99, 116, 105, 111, 110];
    let keep_alive = [107u8, 101, 101, 112, 45, 97, 108, 105, 118, 101];
    let close = [99u8, 108, 111, 115, 101];
    proof {
        assert(crate::ascii::lower_seq(connection_name@) =~= spec_connection_name());
        assert(keep_alive@ =~= spec_keep_alive_token());
        assert(close@ =~= spec_close_token());
    }
    if req.line.version.0 == 1 && req.line.version.1 == 0 && !req.headers.field_contains_value(
        &connection_name,
        &keep_alive,
    ) {
        return true;
    }
    if req.headers.field_contains_value(&connection_name, &close) {
        return true;
    }
    if resp.headers.field_contains_value(&connection_name, &close) {
        return true;
    }
    false
}

/// Whether a read error only means the peer is gone, so the connection
/// closes quietly instead of answering 500. Exactly the stream-level
/// failures qualify; every protocol error draws the canonical 500.
pub fn is_disconnect_error(e: &RequestError) -> (r: bool)
    ensures
        r == (e is IO),
{
    match e {
        RequestError::IO(_) => true,
        _ => false,
    }
}

} // verus!
