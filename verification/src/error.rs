//! The failures a session can report.

use vstd::prelude::*;

verus! {

/// Every way in which a protocol step can fail. Each failure is returned to
/// the caller as a value.
#[derive(Debug, Clone, Copy, PartialEq, Eq, Structural)]
pub enum ProtocolError {
    /// The connection was closed, or a read or write failed.
    IOError,
    /// A declared length does not match the bytes that are there.
    FramingError,
    /// A text payload is not valid UTF-8, or an index is not a decimal number.
    ParseError,
    /// A requested leaf index is not below the leaf count.
    IndexOutOfRange,
    /// A proof did not reproduce the committed root.
    ProofVerificationFailure,
    /// The root declared after an update is not the root the client computed.
    RootMismatchFailure,
}

} // verus!
