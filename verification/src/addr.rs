//! Plain-value models of IPv4 addresses and IPv4 socket addresses.
//!
//! The dataplane identifies routers and clients by IPv4 address and
//! port alone, so the library carries them as four octets and a
//! sixteen-bit port rather than as operating-system address types.

use vstd::prelude::*;

verus! {

/// An IPv4 address as its four octets, most significant first.
#[derive(Clone, Copy, PartialEq, Eq, Structural, Debug, Hash)]
pub struct Ipv4 {
    pub a: u8,
    pub b: u8,
    pub c: u8,
    pub d: u8,
}

/// An IPv4 socket address: address plus port.
#[derive(Clone, Copy, PartialEq, Eq, Structural, Debug, Hash)]
pub struct SockAddrV4 {
    pub ip: Ipv4,
    pub port: u16,
}

impl Ipv4 {
    /// Build an address from its four octets.
    pub fn new(a: u8, b: u8, c: u8, d: u8) -> (r: Ipv4)
        ensures
            r == (Ipv4 { a, b, c, d }),
    {
        Ipv4 { a, b, c, d }
    }
}

impl SockAddrV4 {
    /// Build a socket address from an address and a port.
    pub fn new(ip: Ipv4, port: u16) -> (r: SockAddrV4)
        ensures
            r == (SockAddrV4 { ip, port }),
    {
        SockAddrV4 { ip, port }
    }
}

} // verus!
