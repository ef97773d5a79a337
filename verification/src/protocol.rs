use vstd::prelude::*;

verus! {

/// Identifier of a peer, chosen by the authentication protocol at first
/// contact and stable for the lifetime of its session.
pub type ClientId = u64;

/// A pluggable authentication handshake state machine. The orchestrator
/// never inspects its internals: it only asks whether authentication has
/// completed, whether an outbound handshake payload is ready, and, once
/// authenticated, for the security context the session will carry.
///
/// The orchestrator's contracts promise nothing about what these methods
/// return; its bookkeeping is verified for every possible answer.
pub trait AuthenticationProtocol: Sized {
    /// The security context handed to the session built at promotion.
    type Context;

    /// The identifier this protocol assigned to its peer.
    fn id(&self) -> ClientId;

    /// Whether the handshake has completed successfully.
    fn is_authenticated(&self) -> bool;

    /// The next outbound handshake payload, if one is ready; used to
    /// send or resend the current handshake step to the peer.
    fn create_payload(&mut self) -> Option<Vec<u8>>;

    /// Feed one inbound payload to the handshake; `false` reports a
    /// payload the protocol rejected, leaving the handshake to retry.
    fn process_payload(&mut self, payload: Vec<u8>) -> bool;

    /// Build the security context for the session this handshake
    /// becomes; meaningful once `is_authenticated` reports true.
    fn build_security_interface(&self) -> Self::Context;
}

/// The server-side half of a pluggable handshake: how a protocol state
/// machine is born from the first payload a yet-unknown peer sends.
/// `None` reports a malformed or rejected first-contact payload; the
/// orchestrator then creates no handshake entry.
pub trait ServerAuthenticationProtocol: AuthenticationProtocol {
    /// Construct the handshake state from a first-contact payload.
    fn from_payload(payload: Vec<u8>) -> Option<Self>;
}

} // verus!
