//! A bounded parser for the start of an HTTP/1.x request.
//!
//! The parsers take a raw byte buffer holding at least the beginning of a
//! request (request line, header lines, optionally a body) and classify the
//! method, the protocol version, the request-target and the header fields.
//! Each parser inspects only a bounded prefix of the buffer and is a pure
//! function of the bytes in that prefix.

pub mod bytes;
pub mod encoding;
pub mod http;
pub mod kvmap;
pub mod laws;
