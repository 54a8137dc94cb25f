//! The unit of work the emulator forwards.

use vstd::prelude::*;

use crate::addr::SockAddrV4;
use crate::MESSAGE_LENGTH;

verus! {

/// One datagram in flight inside the emulator: its final destination as
/// parsed from the original header, the owned fixed-size buffer, and
/// the length of the valid prefix.
#[derive(Debug)]
pub struct Message {
    /// The final destination the client named in the header.
    pub target: SockAddrV4,
    /// The owned buffer; always exactly `MESSAGE_LENGTH` bytes.
    pub buffer: Vec<u8>,
    /// How many leading bytes of the buffer are the frame.
    pub len: usize,
}

impl Message {
    /// The buffer has the fixed capacity and the frame at least holds
    /// the six-byte header.
    pub open spec fn wf(self) -> bool {
        &&& self.buffer@.len() == MESSAGE_LENGTH
        &&& 6 <= self.len <= MESSAGE_LENGTH
    }
}

} // verus!
