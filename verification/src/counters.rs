//! Loss and receive accounting, and the shared drop path.
//!
//! Every way a frame can be discarded is a named reason.  The reasons
//! that count as routing losses — queue overflow, no route, next hop
//! not a neighbor, zero-bandwidth link, delay past the update period —
//! bump the loss counters; an oversize frame bumps the receive-packet
//! counter; the rest touch no counter.  Every drop returns its buffer
//! to the pool.

use vstd::prelude::*;

use crate::pool::Pool;
use crate::sat_add64;
use crate::MESSAGE_LENGTH;

verus! {

/// Why a frame was discarded.
#[derive(Clone, Copy, PartialEq, Eq, Structural, Debug)]
pub enum DropReason {
    /// The OS read filled the whole buffer, so the frame may be cut short.
    Oversize,
    /// The frame is shorter than the six-byte header.
    TooShort,
    /// The frame's source is no registered router.
    UnknownSource,
    /// A router's bounded queue was full when the frame arrived.
    QueueOverflow,
    /// The router has no routing entry for the frame's destination.
    NoRoute,
    /// The routing entry names a next hop that is no neighbor.
    NextHopNotNeighbor,
    /// The link to the next hop has bandwidth zero.
    ZeroBandwidth,
    /// Pacing the frame would take at least the route-update period.
    DelayTooLong,
}

/// The drop reasons that count as losses: drops of frames that were
/// accepted into the network and then discarded while being routed.
pub open spec fn counts_as_loss(r: DropReason) -> bool {
    match r {
        DropReason::QueueOverflow => true,
        DropReason::NoRoute => true,
        DropReason::NextHopNotNeighbor => true,
        DropReason::ZeroBandwidth => true,
        DropReason::DelayTooLong => true,
        _ => false,
    }
}

/// The emulator's global packet counters.
#[derive(Clone, Copy, PartialEq, Eq, Structural, Debug)]
pub struct Counters {
    /// Frames dropped for a loss reason.
    pub loss_packets: u64,
    /// Payload bytes (frame length less the header) of those frames.
    pub loss_bytes: u64,
    /// Frames counted at receive time (oversize reads).
    pub receive_packets: u64,
    /// Bytes counted at receive time.
    pub receive_bytes: u64,
}

impl Counters {
    /// All counters at zero.
    pub fn new() -> (r: Counters)
        ensures
            r == (Counters {
                loss_packets: 0u64,
                loss_bytes: 0u64,
                receive_packets: 0u64,
                receive_bytes: 0u64,
            }),
    {
        Counters { loss_packets: 0, loss_bytes: 0, receive_packets: 0, receive_bytes: 0 }
    }

    /// The counters after recording one drop of a frame of `len` bytes
    /// for reason `r`: the loss counters move exactly on loss reasons,
    /// the receive-packet counter exactly on oversize frames.
    pub open spec fn spec_record_drop(self, r: DropReason, len: usize) -> Counters {
        if counts_as_loss(r) {
            Counters {
                loss_packets: sat_add64(self.loss_packets, 1),
                loss_bytes: sat_add64(self.loss_bytes, (len - 6) as u64),
                ..self
            }
        } else if r is Oversize {
            Counters { receive_packets: sat_add64(self.receive_packets, 1), ..self }
        } else {
            self
        }
    }
}

/// Loss accounting: recording one drop raises `loss_packets` by
/// exactly one, and `loss_bytes` by exactly the frame's payload length,
/// when and only when the reason is a routing loss; no other reason
/// moves the loss counters.  Every drop path goes through
/// `spec_record_drop`, so the loss counters are exactly the count and
/// payload bytes of the routing losses across a run, up to counter
/// saturation.
pub proof fn lemma_loss_accounting(c: Counters, r: DropReason, len: usize)
    requires
        len >= 6,
    ensures
        counts_as_loss(r) ==> c.spec_record_drop(r, len).loss_packets == sat_add64(
            c.loss_packets,
            1,
        ) && c.spec_record_drop(r, len).loss_bytes == sat_add64(c.loss_bytes, (len - 6) as u64),
        !counts_as_loss(r) ==> c.spec_record_drop(r, len).loss_packets == c.loss_packets
            && c.spec_record_drop(r, len).loss_bytes == c.loss_bytes,
{
}

/// Discard a frame: record the drop in the counters and return its
/// buffer — the very one passed in — to the pool.  Exactly the loss
/// reasons raise `loss_packets` by one and `loss_bytes` by the frame's
/// payload length; an oversize frame raises `receive_packets` by one;
/// no other counter moves.
pub fn drop_packet(
    reason: DropReason,
    len: usize,
    buffer: Vec<u8>,
    counters: &mut Counters,
    pool: &mut Pool,
)
    requires
        old(pool).wf(),
        old(pool).outstanding() >= 1,
        buffer@.len() == MESSAGE_LENGTH,
        counts_as_loss(reason) ==> len >= 6,
    ensures
        final(pool).wf(),
        final(pool).free@ == old(pool).free@.push(buffer),
        final(pool).outstanding() == old(pool).outstanding() - 1,
        final(pool).spec_allocated() == old(pool).spec_allocated(),
        *final(counters) == old(counters).spec_record_drop(reason, len),
{
    match reason {
        DropReason::QueueOverflow
        | DropReason::NoRoute
        | DropReason::NextHopNotNeighbor
        | DropReason::ZeroBandwidth
        | DropReason::DelayTooLong => {
            counters.loss_packets = counters.loss_packets.saturating_add(1);
            counters.loss_bytes = counters.loss_bytes.saturating_add((len - 6) as u64);
        },
        DropReason::Oversize => {
            counters.receive_packets = counters.receive_packets.saturating_add(1);
        },
        _ => {},
    }
    pool.release(buffer);
}

} // verus!
