//! What can go wrong. None of it stops the node: the worst outcome is a
//! peer or an address that is not admitted.

use vstd::prelude::*;

verus! {

/// Why a connection was not admitted.
#[derive(Clone, Copy, Debug, PartialEq, Eq, Structural)]
pub enum RejectReason {
    /// Networking is switched off or was interrupted.
    NetworkInactive,
    /// A ban applies to the target.
    Banned,
    /// The connection class has no free slot.
    SlotLimit,
    /// A live connection to the same address exists.
    Duplicate,
}

/// Why a handshake did not lead to an established connection.
#[derive(Clone, Copy, Debug, PartialEq, Eq, Structural)]
pub enum HandshakeFailure {
    /// Dialing or the handshake took too long.
    Timeout,
    /// The peer broke the protocol.
    ProtocolViolation,
    /// The peer sent back a nonce of ours: the node reached itself.
    SelfConnection,
    /// The peer was banned while the handshake ran.
    Banned,
    /// The connection was called off.
    Cancelled,
    /// The slot named is not in a handshake.
    NotHandshaking,
}

/// The kinds of failure.
#[derive(Clone, Copy, Debug, PartialEq, Eq, Structural)]
pub enum NetError {
    /// The caller gets no slot.
    AdmissionRejected(RejectReason),
    /// The slot is closed and the failure accounted for.
    HandshakeFailed(HandshakeFailure),
    /// An address found its slot held by a record that does not give way.
    StoreFull,
    /// Stored state could not be read or written.
    PersistenceError,
}

} // verus!
