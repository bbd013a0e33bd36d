//! Error taxonomy of the manager core.
use vstd::prelude::*;

verus! {

/// One of the four markers that an agent puts where a value was expected.
#[derive(Debug, Clone, Copy, PartialEq, Eq, Structural)]
pub enum Boundary {
    Unspecified,
    NoSuchObject,
    NoSuchInstance,
    EndOfMibView,
}

/// Why a reply was refused although it decoded.
#[derive(Debug, Clone, Copy, PartialEq, Eq, Structural)]
pub enum ProtocolFault {
    /// The reply carries another request id than the outstanding request.
    RequestIdMismatch { expected: i32, received: i32 },
    /// The agent reported a non-zero error-status (e.g. 2, "noSuchName").
    AgentError { status: i32, index: i32 },
}

#[derive(Debug, Clone, Copy, PartialEq, Eq, Structural)]
pub enum Error {
    /// A textual object identifier is not a dot-separated list of numbers,
    /// or an identifier cannot be put on the wire.
    MalformedIdentifier,
    /// A value cannot be put on the wire (an `Integer` without valid INTEGER content).
    MalformedValue,
    /// The socket could not be opened, or a send or receive failed or was partial.
    TransportError,
    /// No reply arrived within the deadline, after every retry.
    Timeout,
    /// The request would not fit in one datagram.
    RequestTooLarge,
    /// The reply filled the whole receive buffer and may have been cut.
    ResponseTooLarge,
    /// The reply bytes are not a well-formed v2c message.
    MalformedResponse,
    /// The reply decoded but does not answer the request.
    ProtocolError(ProtocolFault),
    /// A marker stood where a value was expected.
    BoundaryCondition(Boundary),
}

} // verus!
