//! A minimal HTTP/1.1 wire-protocol library: a byte-level request decoder,
//! a response encoder, and a router over a byte-keyed file store.
//!
//! The protocol subset is intentionally narrow: GET and POST only, bodies
//! framed by `Content-Length` alone (no chunked encoding, no keep-alive).

pub mod bytes;
pub mod codec;
pub mod handler;
pub mod http;
pub mod laws;
pub mod router;
pub mod tokens;
