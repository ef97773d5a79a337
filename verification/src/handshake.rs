use vstd::prelude::*;

use crate::addr::NetAddr;
use crate::protocol::{AuthenticationProtocol, ClientId};

verus! {

/// The identity of one in-progress handshake: who the peer will be and
/// where it sends from. The protocol state itself is opaque to this
/// layer.
pub struct HandshakeView {
    pub client_id: ClientId,
    pub addr: NetAddr,
}

/// One in-progress, unauthenticated peer: its assigned identifier, its
/// network address, and the authentication protocol instance driving the
/// handshake. It exists from first contact until authentication succeeds
/// or the orchestrator is torn down.
pub struct HandleConnection<P: AuthenticationProtocol> {
    pub(crate) client_id: ClientId,
    pub(crate) addr: NetAddr,
    pub(crate) protocol: P,
}

impl<P: AuthenticationProtocol> View for HandleConnection<P> {
    type V = HandshakeView;

    closed spec fn view(&self) -> HandshakeView {
        HandshakeView { client_id: self.client_id, addr: self.addr }
    }
}

impl<P: AuthenticationProtocol> HandleConnection<P> {
    /// Begin tracking one peer's handshake.
    pub fn new(client_id: ClientId, addr: NetAddr, protocol: P) -> (h: HandleConnection<P>)
        ensures
            h@ == (HandshakeView { client_id, addr }),
    {
        HandleConnection { client_id, addr, protocol }
    }

    /// The identifier the protocol assigned to this peer.
    pub fn client_id(&self) -> (r: ClientId)
        ensures
            r == self@.client_id,
    {
        self.client_id
    }

    /// The address this peer sends from.
    pub fn addr(&self) -> (r: NetAddr)
        ensures
            r == self@.addr,
    {
        self.addr
    }

    /// Whether this handshake's protocol reports authentication
    /// complete.
    pub fn is_authenticated(&self) -> bool {
        self.protocol.is_authenticated()
    }

    /// The next outbound handshake payload to (re)send to the peer, if
    /// the protocol has one ready. The peer's identity and address never
    /// change.
    pub fn create_payload(&mut self) -> (r: Option<Vec<u8>>)
        ensures
            final(self)@ == old(self)@,
    {
        self.protocol.create_payload()
    }

    /// The security context for the session this handshake becomes.
    pub fn build_security_interface(&self) -> P::Context {
        self.protocol.build_security_interface()
    }

    /// Feed one inbound payload to the handshake's protocol. The peer's
    /// identity and address never change; `false` reports a payload the
    /// protocol rejected, leaving the handshake to retry on the next one.
    pub fn process_payload(&mut self, payload: Vec<u8>) -> (ok: bool)
        ensures
            final(self)@ == old(self)@,
    {
        self.protocol.process_payload(payload)
    }
}

} // verus!
