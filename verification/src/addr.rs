use vstd::prelude::*;

verus! {

/// A peer's network address: the part of a datagram's source address the
/// router compares. The numeric form covers both 32-bit and 128-bit
/// internet addresses; the embedding application converts from its socket
/// address type.
#[derive(Clone, Copy, PartialEq, Eq, Structural, Debug, Hash)]
pub struct NetAddr {
    pub ip: u128,
    pub port: u16,
}

} // verus!
