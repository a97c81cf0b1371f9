//! The failures the protocol surfaces: precondition violations detected by
//! the environment or a participant, and exhaustion of a randomized search.

use vstd::prelude::*;

verus! {

/// Everything that can go wrong in the messaging environment. Each variant
/// names the precondition that was violated, except `KeyGenerationFailed`,
/// which reports that a bounded random search ran out of draws.
#[derive(Clone, Copy, Debug, PartialEq, Eq, Structural)]
pub enum ProtocolError {
    /// A participant name may not be empty.
    EmptyName,
    /// A participant with this name already exists.
    NameTaken,
    /// The sending participant is not registered.
    SenderNotFound,
    /// The named receiving participant is not registered.
    ReceiverNotFound,
    /// The receiver has never announced a public key to this participant.
    PublicKeyNotFound,
    /// An empty text cannot be encrypted into a message.
    EmptyMessage,
    /// The random search for keys gave up after its iteration cap.
    KeyGenerationFailed,
}

} // verus!
