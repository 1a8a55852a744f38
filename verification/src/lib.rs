//! An HTTP/1.1 wire-protocol library: message framing (request and status
//! lines, header blocks, content-length and chunked bodies), serialization,
//! and the connection-level decisions (keep-alive, error classification).
//! All parsing and serialization works on plain bytes, so the whole message
//! path is verified; transports feed bytes in and take bytes out.

pub mod ascii;
pub mod body;
pub mod connection;
pub mod errors;
pub mod headers;
pub mod method;
pub mod numbers;
pub mod request;
pub mod request_builder;
pub mod request_line;
pub mod response;
pub mod response_builder;
pub mod server;
pub mod status_line;
pub mod stream_reader;
pub mod version;
