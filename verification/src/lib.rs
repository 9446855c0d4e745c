//! A minimal HTTP/1.1 protocol layer, verified with Verus.
//!
//! The crate turns the bytes of a connection into a request, decides what a small file
//! and echo server does with it, and puts the response on the wire:
//!
//! - [`reader`] reads lines and fixed-length blocks from the bytes received;
//! - [`request`] parses the start line, the headers and the body;
//! - [`routes`] holds the route table, and [`router`] the handlers behind it;
//! - [`response`] builds a response and serializes it with a computed
//!   `Content-Length`, compressing the body with [`gzip`] where asked;
//! - [`framing`] proves that what the serializer writes can be read back;
//! - [`headers`], [`text`], [`utf8`], [`decimal`] and [`bytes`] are the parts they
//!   share.
//!
//! Every function states what it returns over a mathematical model of its arguments:
//! strings and byte strings are sequences of bytes, header collections are sequences of
//! pairs, and requests and responses are viewed as records of those. Nothing here does I/O: the
//! caller owns the socket and the served directory.

pub mod bytes;
pub mod decimal;
pub mod error;
pub mod framing;
pub mod gzip;
pub mod headers;
pub mod reader;
pub mod request;
pub mod response;
pub mod router;
pub mod routes;
pub mod text;
pub mod utf8;
