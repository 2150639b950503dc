//! A small HTTP/1.1 server core, as plain functions on bytes:
//!
//! - `headers`: the header block of a request, with folded lines and
//!   repeated names, into a case-insensitive multi-valued map;
//! - `chunked`: incremental decoding of `Transfer-Encoding: chunked` bodies;
//! - `router`: the routes, the static-file guard and media types;
//! - `message`: what an exchange reads from a request, and response bytes;
//! - `connection`: one connection's exchanges as a state machine whose
//!   actions (read, read a file, write, close) the caller performs;
//! - `auth`: Basic credentials and base64.
//!
//! Framing is deliberately simple. The request line and the headers are
//! taken from the first read of an exchange only: a header block longer
//! than that read is cut where the read ended. A body that is not chunked
//! is whatever followed the blank line in that same read; `Content-Length`
//! is not consulted, so a long body is cut short and bytes of a pipelined
//! request would be taken as body.
pub mod text;
pub mod headers;
pub mod chunked;
pub mod router;
pub mod message;
pub mod connection;
pub mod auth;
