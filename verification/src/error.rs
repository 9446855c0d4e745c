//! The ways in which handling a connection can fail.

use vstd::prelude::*;

verus! {

/// Why a request could not be read, or a response could not be produced.
#[derive(Debug, Clone, Copy, PartialEq, Eq, Structural)]
pub enum HttpError {
    /// The stream ended, or could not be read, before a read was satisfied, or a line
    /// read from it is not valid UTF-8.
    TransportError,
    /// The start line holds fewer than three words.
    MalformedStartLine,
    /// The first word of the start line is none of the known methods.
    UnknownMethod,
    /// The third word of the start line is not of the form `HTTP/<major>.<minor>`.
    MalformedVersion,
    /// A header line holds no `": "`, and the parser was told to reject such lines.
    MalformedHeaderLine,
    /// The request uses a method whose body handling does not exist.
    NotImplemented,
    /// A file to serve does not exist.
    FileNotFound,
    /// A file could not be read or written.
    FileIOError,
    /// The encoder failed on the body that was to be compressed.
    EncodingFailed,
    /// Bytes were to be appended to a body that was never set.
    MissingBody,
}

} // verus!
