//! Failures of the framing layer.
use vstd::prelude::*;

verus! {

/// A reply that cannot be read, or a link that sends no frame end.
#[derive(Debug, Clone, Copy, PartialEq, Eq, Structural)]
pub enum ProtocolError {
    /// The reply does not start with a servo id that fits in a byte.
    InvalidId,
    /// The token after the id is not exactly the one expected.
    TokenMismatch,
    /// What follows the token is not a signed decimal `i32`.
    InvalidValue,
    /// The buffer reached its bound without a frame end.
    FrameTooLong,
}

/// A transport that could not write or read.
#[derive(Debug, Clone, Copy, PartialEq, Eq, Structural)]
pub struct IoError;

/// Every failure of a request: the transport's or the protocol's.
#[derive(Debug, Clone, Copy, PartialEq, Eq, Structural)]
pub enum LssError {
    /// The transport failed to write or to read.
    Io,
    /// The bytes that came back do not form the expected reply.
    Protocol(ProtocolError),
}

/// A protocol outcome as a request's outcome.
pub open spec fn lift<T>(r: Result<T, ProtocolError>) -> Result<T, LssError> {
    match r {
        Ok(v) => Ok(v),
        Err(e) => Err(LssError::Protocol(e)),
    }
}

} // verus!
