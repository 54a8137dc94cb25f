//! Client-side framing helpers.
//!
//! A client talking to the emulator prepends the six-byte header naming
//! the final destination before sending, and strips the six bytes
//! naming the previous hop after receiving.  The byte work is here; the
//! sockets stay outside.

use vstd::prelude::*;

use crate::addr::SockAddrV4;
use crate::codec::{decode_header, header_addr, header_bytes};

verus! {

/// The client-side frame codec.
pub struct MySocket;

impl MySocket {
    /// The datagram to send: six header bytes naming `dst`, then the
    /// payload.
    pub fn encode_frame(&self, dst: SockAddrV4, content: &[u8]) -> (r: Vec<u8>)
        ensures
            r@ == header_bytes(dst) + content@,
    {
        let mut v: Vec<u8> = Vec::new();
        v.push(dst.ip.a);
        v.push(dst.ip.b);
        v.push(dst.ip.c);
        v.push(dst.ip.d);
        v.push((dst.port % 0x100) as u8);
        v.push((dst.port / 0x100) as u8);
        v.extend_from_slice(content);
        proof {
            assert(v@ =~= header_bytes(dst) + content@);
        }
        v
    }

    /// What a received datagram of `len` bytes means: too short to
    /// carry a header, it is discarded; otherwise the first six bytes
    /// name the previous hop, the payload shifts to the front, and its
    /// length comes back with the address.
    pub fn decode_frame(&self, content: &mut Vec<u8>, len: usize) -> (r: Option<
        (usize, SockAddrV4),
    >)
        requires
            len <= old(content)@.len(),
        ensures
            len < 6 ==> r is None && *final(content) == *old(content),
            len >= 6 ==> {
                &&& r == Some(((len - 6) as usize, header_addr(old(content)@)))
                &&& final(content)@.len() == old(content)@.len()
                &&& forall|i: int| 0 <= i < len - 6 ==> final(content)@[i] == old(content)@[i + 6]
                &&& forall|i: int|
                    len - 6 <= i < final(content)@.len() ==> final(content)@[i] == old(content)@[i]
            },
    {
        if len < 6 {
            return None;
        }
        let addr = decode_header(content.as_slice());
        let mut i: usize = 0;
        while i < len - 6
            invariant
                i <= len - 6,
                6 <= len <= content@.len(),
                content@.len() == old(content)@.len(),
                forall|x: int| 0 <= x < i ==> content@[x] == old(content)@[x + 6],
                forall|x: int| i <= x < content@.len() ==> content@[x] == old(content)@[x],
            decreases len - 6 - i,
        {
            let b = content[i + 6];
            content[i] = b;
            i = i + 1;
        }
        Some((len - 6, addr))
    }
}

} // verus!
