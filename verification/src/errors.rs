//! Error taxonomy of the protocol host.
//!
//! Resource exhaustion rejects the one request; a protocol violation is
//! fatal to the offending connection only; transient I/O never reaches this
//! crate (the caller retries on the next readiness).

use vstd::prelude::*;

verus! {

/// Everything that can go wrong inside the core. Each variant is scoped to
/// one request or one connection; none is fatal to the server as a whole.
#[derive(Clone, Copy, Debug, PartialEq, Eq, Structural)]
pub enum ProtocolError {
    /// Client admission rejected: the registry is at capacity.
    TooManyClients,
    /// An object or pool allocation rejected: the identifier space or a
    /// configured table capacity is exhausted.
    TooManyObjects,
    /// An event source was registered twice with the reactor.
    DuplicateSource,
    /// An object identifier does not resolve within the requesting
    /// client's namespace.
    UnknownObject,
    /// A create request referenced a shared-memory pool that does not
    /// exist or is not owned by the requesting client.
    UnknownPoolReference,
    /// Reserved for geometry faults other than the bounds rule. The bounds
    /// rule itself is exact — a carve succeeds precisely when the buffer's
    /// last byte lies inside the pool — so no operation of this crate
    /// returns this variant; it stands in the taxonomy for extensions that
    /// validate more of a geometry than the core does.
    InvalidGeometry,
    /// A shared-memory pool could not be mapped (bad descriptor or zero
    /// length).
    MapFailed,
    /// A shared-memory pool exceeds the configured ceiling.
    TooLarge,
    /// A pool resize would leave a live buffer reaching past the end of
    /// the pool.
    ShrinkViolatesBuffer,
    /// A buffer would reach past the end of its pool.
    OutOfBounds,
    /// A malformed or misaddressed message; the connection can no longer
    /// be trusted and is torn down.
    ProtocolViolation,
    /// The client let its outbound queue grow past the ceiling.
    SlowClient,
}

impl ProtocolError {
    /// True for the errors that are fatal to the offending connection:
    /// malformed or misaddressed messages, cross-client references, and
    /// bad geometry mean the connection can no longer be trusted, so the
    /// server answers them by disconnecting that client. The others are
    /// resource or environment failures: they reject the one request and
    /// leave the connection running.
    pub open spec fn spec_is_fatal(self) -> bool {
        match self {
            ProtocolError::TooManyClients => false,
            ProtocolError::TooManyObjects => false,
            ProtocolError::DuplicateSource => false,
            ProtocolError::TooLarge => false,
            ProtocolError::MapFailed => false,
            _ => true,
        }
    }

    /// Exec mirror of `spec_is_fatal`.
    pub fn is_fatal(self) -> (r: bool)
        ensures
            r == self.spec_is_fatal(),
    {
        match self {
            ProtocolError::TooManyClients => false,
            ProtocolError::TooManyObjects => false,
            ProtocolError::DuplicateSource => false,
            ProtocolError::TooLarge => false,
            ProtocolError::MapFailed => false,
            _ => true,
        }
    }

    /// The code under which a rejected request is reported back to the
    /// client on the wire.
    pub open spec fn spec_wire_code(self) -> u32 {
        match self {
            ProtocolError::TooManyClients => 1,
            ProtocolError::TooManyObjects => 2,
            ProtocolError::DuplicateSource => 3,
            ProtocolError::UnknownObject => 4,
            ProtocolError::UnknownPoolReference => 5,
            ProtocolError::InvalidGeometry => 6,
            ProtocolError::MapFailed => 7,
            ProtocolError::TooLarge => 8,
            ProtocolError::ShrinkViolatesBuffer => 9,
            ProtocolError::OutOfBounds => 10,
            ProtocolError::ProtocolViolation => 11,
            ProtocolError::SlowClient => 12,
        }
    }

    /// Exec mirror of `spec_wire_code`.
    pub fn wire_code(self) -> (r: u32)
        ensures
            r == self.spec_wire_code(),
    {
        match self {
            ProtocolError::TooManyClients => 1,
            ProtocolError::TooManyObjects => 2,
            ProtocolError::DuplicateSource => 3,
            ProtocolError::UnknownObject => 4,
            ProtocolError::UnknownPoolReference => 5,
            ProtocolError::InvalidGeometry => 6,
            ProtocolError::MapFailed => 7,
            ProtocolError::TooLarge => 8,
            ProtocolError::ShrinkViolatesBuffer => 9,
            ProtocolError::OutOfBounds => 10,
            ProtocolError::ProtocolViolation => 11,
            ProtocolError::SlowClient => 12,
        }
    }

    /// A short diagnostic name, for operator-facing logging outside the
    /// core.
    pub fn describe(self) -> String {
        match self {
            ProtocolError::TooManyClients => "too many clients".to_string(),
            ProtocolError::TooManyObjects => "too many objects".to_string(),
            ProtocolError::DuplicateSource => "duplicate event source".to_string(),
            ProtocolError::UnknownObject => "unknown object".to_string(),
            ProtocolError::UnknownPoolReference => "unknown pool reference".to_string(),
            ProtocolError::InvalidGeometry => "invalid buffer geometry".to_string(),
            ProtocolError::MapFailed => "mapping shared memory failed".to_string(),
            ProtocolError::TooLarge => "shared-memory pool too large".to_string(),
            ProtocolError::ShrinkViolatesBuffer => "resize would invalidate a live buffer".to_string(),
            ProtocolError::OutOfBounds => "buffer exceeds pool bounds".to_string(),
            ProtocolError::ProtocolViolation => "protocol violation".to_string(),
            ProtocolError::SlowClient => "outbound queue ceiling exceeded".to_string(),
        }
    }
}

} // verus!
