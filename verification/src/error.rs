//! The ways in which talking to the service can fail.

use vstd::prelude::*;

verus! {

/// What went wrong on the transport.
#[derive(Debug, Clone, Copy, PartialEq, Eq, Structural)]
pub enum IoFailure {
    /// The socket path does not exist.
    NotFound,
    /// The socket exists but may not be opened.
    PermissionDenied,
    /// Nothing listens on the socket.
    ConnectionRefused,
    /// The peer reset the connection.
    ConnectionReset,
    /// A write reached a connection that the peer has closed.
    BrokenPipe,
    /// The stream ended before a header or a payload was complete.
    UnexpectedEof,
    /// Any other failure.
    Other,
}

/// Where a payload stopped being JSON.
#[derive(Debug, Clone, Copy, PartialEq, Eq, Structural)]
pub struct JsonFailure {
    /// One-based line of the offending byte.
    pub line: usize,
    /// One-based column of the offending byte.
    pub column: usize,
}

/// An error of the client.
#[derive(Debug, Clone, Copy, PartialEq, Eq, Structural)]
pub enum Error {
    /// Transport error: connecting, reading, writing or flushing failed.
    IOError(IoFailure),
    /// Format error: a payload is not valid JSON.
    JsonError(JsonFailure),
    /// Range error: an outgoing payload is longer than a header can announce.
    IntegerConversionError,
}

} // verus!
