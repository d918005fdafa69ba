//! The error kinds the endpoint distinguishes.

use vstd::prelude::*;
use crate::identity::Identity;
use crate::proto::ConnectResponse;

verus! {

/// Why an operation failed.
///
/// Per-datagram and per-frame errors (`InvalidVersion`, `InvalidFrameType`,
/// `AntiReplay`) are swallowed by the endpoint loop to preserve
/// availability; per-operation errors are surfaced to the caller.
#[derive(Debug)]
pub enum Error {
    /// The underlying byte source failed or ended too early.
    Io,
    /// An outer datagram carried a bad version or reserved bytes.
    InvalidVersion { version: u8 },
    /// An inner frame carried an unknown type tag.
    InvalidFrameType { typ: u8 },
    /// A duplicate datagram; non-fatal.
    AntiReplay,
    /// An identity or timestamp embedded in a connect exchange does not
    /// match what the handshake itself proved.
    SecurityViolation,
    /// An outgoing connect was answered negatively or not at all.
    OutgoingConnectFailed { identity: Identity, cr: Option<ConnectResponse> },
    /// Bootstrap ran out of broker records to try.
    OutOfOptions,
}

impl Error {
    pub fn is_security_violation(&self) -> (r: bool)
        ensures
            r == (self is SecurityViolation),
    {
        match self {
            Error::SecurityViolation => true,
            _ => false,
        }
    }
}

} // verus!
