//! The engine's error taxonomy. Peer-level errors are recovered inside
//! the swarm by closing the offending connection; only descriptor and
//! registry errors surface to callers.

use vstd::prelude::*;

verus! {

/// Every failure the engine can report.
#[derive(Clone, Copy, Debug, PartialEq, Eq, Structural)]
pub enum EngineError {
    /// The descriptor bytes are truncated or inconsistent.
    MalformedDescriptor,
    /// The requested byte range is not yet backed by verified pieces.
    NotYetAvailable,
    /// No registered torrent has the given identity.
    NotFound,
    /// A peer sent a message that the protocol state refuses.
    PeerProtocolError,
    /// A peer missed too many request deadlines.
    PeerTimeout,
    /// An assembled piece did not match its digest.
    VerificationFailure,
    /// A discovery source could not be reached; retried on backoff.
    DiscoverySourceUnreachable,
}

impl EngineError {
    /// A short description, for callers that render errors.
    pub fn describe(&self) -> (r: &'static str)
    {
        match self {
            EngineError::MalformedDescriptor => "malformed descriptor",
            EngineError::NotYetAvailable => "range not yet available",
            EngineError::NotFound => "unknown torrent",
            EngineError::PeerProtocolError => "peer protocol error",
            EngineError::PeerTimeout => "peer timed out",
            EngineError::VerificationFailure => "piece failed verification",
            EngineError::DiscoverySourceUnreachable => "discovery source unreachable",
        }
    }
}

} // verus!
