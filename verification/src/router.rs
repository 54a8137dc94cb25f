//! One emulated network node.
//!
//! A router owns an unbounded inbox of incoming messages, a bounded
//! forwarding queue, its outgoing links, and a routing table derived
//! from them.  Its forwarding task drains the inbox into the queue
//! (dropping on overflow), pops one message, and decides: deliver
//! locally, forward to a neighbor after a pacing delay, or drop with a
//! named reason.

use vstd::prelude::*;

use crate::addr::Ipv4;
use crate::cost::{delay_ms, spec_delay_ms};
use crate::counters::{drop_packet, Counters, DropReason};
use crate::message::Message;
use crate::pool::Pool;
use crate::routes::{
    find_link, find_link_index, find_route, lookup_link, lookup_route, unique_dsts, unique_links,
    Link, RouteEntry,
};
use crate::{DEFAULT_QUEUE_SIZE, MESSAGE_LENGTH, PERIOD_UPDATE_MS};

verus! {

/// Some link (of any bandwidth) leads to `to`.
pub open spec fn has_link(s: Seq<Link>, to: Ipv4) -> bool {
    find_link_index(s, to) >= 0
}

/// One emulated router.
pub struct Router {
    /// The router's IPv4 identity; unique within the registry.
    pub addr: Ipv4,
    /// Outgoing links to neighbors, pairwise-distinct destinations.
    pub outers: Vec<Link>,
    /// Arrived messages not yet moved to the bounded queue.
    pub inbox: Vec<Message>,
    /// Messages awaiting forwarding; never longer than `queue_size`.
    pub queue: Vec<Message>,
    /// The queue's capacity bound.
    pub queue_size: usize,
    /// Destination to cost and next hop, recomputed periodically.
    pub routes: Vec<RouteEntry>,
}

/// What the forwarding task does with the message at the head of the
/// queue.
#[derive(Clone, Copy, PartialEq, Eq, Structural, Debug)]
pub enum Decision {
    /// The message is addressed to this router: emit it to the OS.
    Local,
    /// Hand the message to neighbor `hop` after `delay` milliseconds.
    Forward { hop: Ipv4, delay: u64 },
    /// Discard the message for the given reason.
    Drop { reason: DropReason },
}

/// The routing decision for a message of `len` bytes addressed to
/// `target`, given the router's address, routes and links: deliver
/// locally at the destination; otherwise follow the routing table, and
/// drop when there is no route, the hop is no neighbor, the link has no
/// bandwidth, or pacing would outlast the update period.
pub open spec fn spec_decide(
    addr: Ipv4,
    routes: Seq<RouteEntry>,
    outers: Seq<Link>,
    target: Ipv4,
    len: usize,
) -> Decision {
    if target == addr {
        Decision::Local
    } else {
        match find_route(routes, target) {
            None => Decision::Drop { reason: DropReason::NoRoute },
            Some(e) => match find_link(outers, e.hop) {
                None => Decision::Drop { reason: DropReason::NextHopNotNeighbor },
                Some(l) => if l.bw == 0 {
                    Decision::Drop { reason: DropReason::ZeroBandwidth }
                } else if spec_delay_ms(len, l.bw) >= PERIOD_UPDATE_MS {
                    Decision::Drop { reason: DropReason::DelayTooLong }
                } else {
                    Decision::Forward { hop: e.hop, delay: spec_delay_ms(len, l.bw) }
                },
            },
        }
    }
}

/// The queue and counters after draining an inbox into a queue bounded
/// by `qs`: messages move over in arrival order while there is room,
/// and each one that finds the queue full is dropped as a queue
/// overflow.
pub open spec fn spec_drain(q: Seq<Message>, inbox: Seq<Message>, qs: nat, c: Counters) -> (
    Seq<Message>,
    Counters,
)
    decreases inbox.len(),
{
    if inbox.len() == 0 {
        (q, c)
    } else if q.len() < qs {
        spec_drain(q.push(inbox[0]), inbox.drop_first(), qs, c)
    } else {
        spec_drain(
            q,
            inbox.drop_first(),
            qs,
            c.spec_record_drop(DropReason::QueueOverflow, inbox[0].len),
        )
    }
}

impl Router {
    /// Links and routes have pairwise-distinct keys, the queue respects
    /// its bound, every carried message is well-formed, and every next
    /// hop in the table is a neighbor (or its row is the router
    /// itself).
    pub open spec fn wf(self) -> bool {
        &&& unique_links(self.outers@)
        &&& unique_dsts(self.routes@)
        &&& self.queue@.len() <= self.queue_size
        &&& forall|i: int| 0 <= i < self.queue@.len() ==> (#[trigger] self.queue@[i]).wf()
        &&& forall|i: int| 0 <= i < self.inbox@.len() ==> (#[trigger] self.inbox@[i]).wf()
        &&& forall|i: int|
            0 <= i < self.routes@.len() ==> has_link(self.outers@, (#[trigger] self.routes@[i]).hop)
                || self.routes@[i].dst == self.addr
    }

    /// How many messages — and so how many pool buffers — this router
    /// holds, in its inbox and its queue together.
    pub open spec fn spec_transit(self) -> int {
        self.inbox@.len() + self.queue@.len() as int
    }

    /// A fresh router: no links, no messages, no routes, the default
    /// queue bound.
    pub fn new(addr: Ipv4) -> (r: Router)
        ensures
            r.wf(),
            r.addr == addr,
            r.outers@.len() == 0,
            r.inbox@.len() == 0,
            r.queue@.len() == 0,
            r.routes@.len() == 0,
            r.queue_size == DEFAULT_QUEUE_SIZE,
    {
        Router {
            addr,
            outers: Vec::new(),
            inbox: Vec::new(),
            queue: Vec::new(),
            queue_size: DEFAULT_QUEUE_SIZE,
            routes: Vec::new(),
        }
    }

    /// The router's outgoing links.
    pub fn outers(&self) -> (r: &Vec<Link>)
        ensures
            r == &self.outers,
    {
        &self.outers
    }

    /// The router's IPv4 identity.
    pub fn ipv4addr(&self) -> (r: Ipv4)
        ensures
            r == self.addr,
    {
        self.addr
    }

    /// Move every inbox message to the queue in arrival order; each one
    /// that meets a full queue is dropped as a queue overflow, its
    /// buffer returned to the pool.  Links, routes and identity are
    /// untouched, no buffer leaks: the pool's outstanding count drops
    /// by exactly the messages dropped.
    pub fn drain_inbox(&mut self, counters: &mut Counters, pool: &mut Pool)
        requires
            old(self).wf(),
            old(pool).wf(),
            old(pool).outstanding() >= old(self).inbox@.len(),
        ensures
            final(self).wf(),
            final(pool).wf(),
            final(self).addr == old(self).addr,
            final(self).outers == old(self).outers,
            final(self).routes == old(self).routes,
            final(self).queue_size == old(self).queue_size,
            final(self).inbox@.len() == 0,
            (final(self).queue@, *final(counters)) == spec_drain(
                old(self).queue@,
                old(self).inbox@,
                old(self).queue_size as nat,
                *old(counters),
            ),
            final(pool).spec_allocated() == old(pool).spec_allocated(),
            final(pool).outstanding() - final(self).spec_transit() == old(pool).outstanding()
                - old(self).spec_transit(),
    {
        while self.inbox.len() > 0
            invariant
                self.wf(),
                pool.wf(),
                self.addr == old(self).addr,
                self.outers == old(self).outers,
                self.routes == old(self).routes,
                self.queue_size == old(self).queue_size,
                spec_drain(self.queue@, self.inbox@, self.queue_size as nat, *counters)
                    == spec_drain(
                    old(self).queue@,
                    old(self).inbox@,
                    old(self).queue_size as nat,
                    *old(counters),
                ),
                pool.spec_allocated() == old(pool).spec_allocated(),
                pool.outstanding() - self.spec_transit() == old(pool).outstanding() - old(
                    self,
                ).spec_transit(),
                pool.outstanding() >= self.inbox@.len(),
            decreases self.inbox@.len(),
        {
            let ghost inbox0 = self.inbox@;
            let m = self.inbox.remove(0);
            proof {
                assert(inbox0.remove(0) =~= inbox0.drop_first());
                assert(m.wf());
            }
            if self.queue.len() < self.queue_size {
                self.queue.push(m);
            } else {
                drop_packet(DropReason::QueueOverflow, m.len, m.buffer, counters, pool);
            }
        }
    }

    /// The routing decision for a message of `len` bytes addressed to
    /// `target`, exactly as `spec_decide` states it.
    pub fn decide(&self, target: Ipv4, len: usize) -> (d: Decision)
        requires
            len <= MESSAGE_LENGTH,
        ensures
            d == spec_decide(self.addr, self.routes@, self.outers@, target, len),
    {
        if target == self.addr {
            return Decision::Local;
        }
        match lookup_route(&self.routes, target) {
            None => Decision::Drop { reason: DropReason::NoRoute },
            Some(e) => match lookup_link(&self.outers, e.hop) {
                None => Decision::Drop { reason: DropReason::NextHopNotNeighbor },
                Some(l) => {
                    if l.bw == 0 {
                        Decision::Drop { reason: DropReason::ZeroBandwidth }
                    } else {
                        let dl = delay_ms(len, l.bw);
                        if dl >= PERIOD_UPDATE_MS {
                            Decision::Drop { reason: DropReason::DelayTooLong }
                        } else {
                            Decision::Forward { hop: e.hop, delay: dl }
                        }
                    }
                },
            },
        }
    }
}

} // verus!
