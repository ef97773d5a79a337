use vstd::prelude::*;

verus! {

/// Blueprint from which a session's endpoint is built at promotion time.
/// Packet framing, fragmentation and congestion control belong to the
/// transport below this layer, so the blueprint carries no knobs here.
#[derive(Clone, Copy)]
pub struct EndpointConfig {}

/// Bandwidth statistics for one session, as whole counters: the packets
/// and payload bytes this layer has handed to or taken from the session.
#[derive(Clone, Copy, PartialEq, Eq, Structural, Debug)]
pub struct NetworkInfo {
    pub sent_packets: u64,
    pub sent_bytes: u64,
    pub received_packets: u64,
    pub received_bytes: u64,
}

/// Per-session packet-level accounting: tracks what was sent to and
/// received from the peer. The wire encoding itself is the transport's
/// concern.
pub struct Endpoint {
    info: NetworkInfo,
}

/// A counter sum that stops at the counter's ceiling instead of wrapping.
pub open spec fn sat_add_u64(a: u64, b: u64) -> u64 {
    if a + b > u64::MAX {
        u64::MAX
    } else {
        (a + b) as u64
    }
}

/// `info` after accounting one received payload of `len` bytes.
pub open spec fn record_received_spec(info: NetworkInfo, len: u64) -> NetworkInfo {
    NetworkInfo {
        received_packets: sat_add_u64(info.received_packets, 1),
        received_bytes: sat_add_u64(info.received_bytes, len),
        ..info
    }
}

/// `info` after accounting one sent packet of `len` bytes.
pub open spec fn record_sent_spec(info: NetworkInfo, len: u64) -> NetworkInfo {
    NetworkInfo {
        sent_packets: sat_add_u64(info.sent_packets, 1),
        sent_bytes: sat_add_u64(info.sent_bytes, len),
        ..info
    }
}

fn sat_add(a: u64, b: u64) -> (r: u64)
    ensures
        r == sat_add_u64(a, b),
{
    if a <= u64::MAX - b {
        a + b
    } else {
        u64::MAX
    }
}

impl Endpoint {
    /// A fresh endpoint with all counters at zero.
    pub fn new(_config: EndpointConfig) -> (e: Endpoint)
        ensures
            e.info() == (NetworkInfo {
                sent_packets: 0,
                sent_bytes: 0,
                received_packets: 0,
                received_bytes: 0,
            }),
    {
        Endpoint {
            info: NetworkInfo { sent_packets: 0, sent_bytes: 0, received_packets: 0, received_bytes: 0 },
        }
    }

    /// The current statistics.
    pub closed spec fn info(&self) -> NetworkInfo {
        self.info
    }

    /// Account one inbound payload of `len` bytes.
    pub fn record_received(&mut self, len: u64)
        ensures
            final(self).info() == record_received_spec(old(self).info(), len),
    {
        self.info.received_packets = sat_add(self.info.received_packets, 1);
        self.info.received_bytes = sat_add(self.info.received_bytes, len);
    }

    /// Account one outbound packet of `len` bytes.
    pub fn record_sent(&mut self, len: u64)
        ensures
            final(self).info() == record_sent_spec(old(self).info(), len),
    {
        self.info.sent_packets = sat_add(self.info.sent_packets, 1);
        self.info.sent_bytes = sat_add(self.info.sent_bytes, len);
    }

    /// Report the current statistics.
    pub fn network_info(&self) -> (r: NetworkInfo)
        ensures
            r == self.info(),
    {
        self.info
    }
}

} // verus!
