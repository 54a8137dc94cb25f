//! A verified core for a single-process IPv4 network emulator.
//!
//! The emulator impersonates a graph of routers on the loopback address
//! space: client datagrams carry a six-byte in-band header naming their
//! final destination, and the emulator forwards them hop by hop, pacing
//! each hop by the link's declared bandwidth, bounding each router's
//! queue, and recomputing shortest-path next hops from reciprocal link
//! bandwidths.  This crate holds the dataplane logic on plain values;
//! the sockets, tasks and timers around it live outside.

#![verifier::loop_isolation(false)]

use vstd::prelude::*;

pub mod addr;
pub mod codec;
pub mod config;
pub mod cost;
pub mod counters;
pub mod emulator;
pub mod links;
pub mod message;
pub mod mysocket;
pub mod parser;
pub mod pool;
pub mod router;
pub mod routes;

verus! {

/// Capacity of every message buffer, and the largest accepted datagram.
pub const MESSAGE_LENGTH: usize = 2500;

/// Milliseconds between two route-table recomputations of one router;
/// also the upper bound a paced packet may wait before it is dropped.
pub const PERIOD_UPDATE_MS: u64 = 20000;

/// Default bound on a router's forwarding queue.
pub const DEFAULT_QUEUE_SIZE: usize = 5;

/// Saturating addition on the width used for counters and costs.
pub open spec fn sat_add64(a: u64, b: u64) -> u64 {
    if a + b > u64::MAX {
        u64::MAX
    } else {
        (a + b) as u64
    }
}

} // verus!
