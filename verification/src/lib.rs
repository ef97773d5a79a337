//! Server-side session layer for a connection-oriented transport over
//! unreliable datagrams: address-based routing of inbound payloads,
//! a pluggable authentication handshake per peer, exactly-once promotion
//! of authenticated handshakes into sessions, per-session channel message
//! queues, and capacity-bounded admission control.

pub mod addr;
pub mod assoc;
pub mod channel;
pub mod connection;
pub mod endpoint;
pub mod handshake;
pub mod protocol;
pub mod server;
