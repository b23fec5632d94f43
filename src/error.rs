use vstd::prelude::*;

verus! {

/// The ways in which decoding, a handshake or a transfer can fail.
#[derive(Debug, Clone, Copy, PartialEq, Eq, Structural)]
pub enum ProtocolError {
    /// A frame whose bytes do not sum to the checksum sentinel.
    ChecksumMismatch,
    /// A packet other than a SYN where a handshake was expected to start.
    MalformedHandshake,
    /// A packet or handshake message was sent the maximum number of times.
    RetriesExceeded,
    /// Receives kept timing out while packets were still unacknowledged.
    PeerUnreachable,
    /// The local address could not be bound.
    BindFailure,
}

} // verus!
