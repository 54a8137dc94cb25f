//! The six-byte in-band routing header.
//!
//! Every client frame begins with six bytes naming an IPv4 socket
//! address: the four address octets in network order, then the port,
//! low byte first.  On ingress these bytes name the frame's final
//! destination; before delivery they are overwritten with the previous
//! hop's identity.

use vstd::prelude::*;

use crate::addr::{Ipv4, SockAddrV4};

verus! {

/// The socket address a six-byte header prefix denotes.
pub open spec fn header_addr(bytes: Seq<u8>) -> SockAddrV4
    recommends
        bytes.len() >= 6,
{
    SockAddrV4 {
        ip: Ipv4 { a: bytes[0], b: bytes[1], c: bytes[2], d: bytes[3] },
        port: (bytes[4] + bytes[5] * 0x100) as u16,
    }
}

/// The six header bytes that encode a socket address.
pub open spec fn header_bytes(addr: SockAddrV4) -> Seq<u8> {
    seq![
        addr.ip.a,
        addr.ip.b,
        addr.ip.c,
        addr.ip.d,
        (addr.port % 0x100) as u8,
        (addr.port / 0x100) as u8,
    ]
}

/// Read the destination named by the first six bytes of a frame.
pub fn decode_header(buf: &[u8]) -> (r: SockAddrV4)
    requires
        buf@.len() >= 6,
    ensures
        r == header_addr(buf@),
{
    let ip = Ipv4 { a: buf[0], b: buf[1], c: buf[2], d: buf[3] };
    let port: u16 = buf[4] as u16 + buf[5] as u16 * 0x100;
    SockAddrV4 { ip, port }
}

/// Overwrite the first six bytes of a frame with `addr`, leaving the
/// payload behind them untouched.
pub fn encode_source(buf: &mut Vec<u8>, addr: SockAddrV4)
    requires
        old(buf)@.len() >= 6,
    ensures
        final(buf)@.len() == old(buf)@.len(),
        final(buf)@.subrange(0, 6) == header_bytes(addr),
        forall|i: int| 6 <= i < final(buf)@.len() ==> final(buf)@[i] == old(buf)@[i],
{
    buf[0] = addr.ip.a;
    buf[1] = addr.ip.b;
    buf[2] = addr.ip.c;
    buf[3] = addr.ip.d;
    buf[4] = (addr.port % 0x100) as u8;
    buf[5] = (addr.port / 0x100) as u8;
    proof {
        assert(buf@.subrange(0, 6) =~= header_bytes(addr));
    }
}

/// Decoding the six bytes that encode an address yields that address
/// again: the header codec loses nothing.
pub proof fn lemma_header_round_trip(addr: SockAddrV4)
    ensures
        header_addr(header_bytes(addr)) == addr,
{
    assert(addr.port % 0x100 + (addr.port / 0x100) * 0x100 == addr.port) by (nonlinear_arith);
}

/// The round trip holds in place as well: after `encode_source`
/// rewrites a frame's header, decoding the frame yields the address
/// that was written.
pub proof fn lemma_encode_then_decode(pre: Seq<u8>, post: Seq<u8>, addr: SockAddrV4)
    requires
        pre.len() >= 6,
        post.len() == pre.len(),
        post.subrange(0, 6) == header_bytes(addr),
    ensures
        header_addr(post) == addr,
{
    assert(post[0] == header_bytes(addr)[0]) by {
        assert(post.subrange(0, 6)[0] == post[0]);
    }
    assert(post[1] == header_bytes(addr)[1]) by {
        assert(post.subrange(0, 6)[1] == post[1]);
    }
    assert(post[2] == header_bytes(addr)[2]) by {
        assert(post.subrange(0, 6)[2] == post[2]);
    }
    assert(post[3] == header_bytes(addr)[3]) by {
        assert(post.subrange(0, 6)[3] == post[3]);
    }
    assert(post[4] == header_bytes(addr)[4]) by {
        assert(post.subrange(0, 6)[4] == post[4]);
    }
    assert(post[5] == header_bytes(addr)[5]) by {
        assert(post.subrange(0, 6)[5] == post[5]);
    }
    lemma_header_round_trip(addr);
}

} // verus!
