//! The emulator: the router registry, the buffer pool and the global
//! counters, as one explicit context.
//!
//! Every dataplane operation lives here: accepting a client frame into
//! the owning router's inbox, one turn of a router's forwarding task
//! with the paced hand-over to the next hop, the periodic route
//! recomputation, and the controller's link and queue mutations.  The
//! operations preserve the registry invariants and account for every
//! buffer: `holding()` — buffers outstanding from the pool beyond those
//! inside routers — moves by exactly one on `acquire_buffer` and
//! `release_buffer`, when a frame is absorbed, and while a forwarded
//! message is withheld between `forward_step` and `deliver_to`, and
//! never otherwise.

use vstd::prelude::*;

use crate::addr::{Ipv4, SockAddrV4};
use crate::codec::{decode_header, encode_source, header_addr, header_bytes};
use crate::cost::link_cost;
use crate::counters::{drop_packet, Counters, DropReason};
use crate::message::Message;
use crate::parser::Command;
use crate::pool::Pool;
use crate::router::{has_link, spec_decide, spec_drain, Decision, Router};
use crate::routes::{
    find_link, has_pos_link, hops_valid, lemma_find_link_index, lemma_recompute_cost,
    lemma_recompute_hops, pass1, pass1_step, pass2, pass2_step, reg_unique, relax_nbr, relax_step,
    spec_recompute, unique_dsts, upsert_route, Link, RouteEntry,
};
use crate::sat_add64;
use crate::MESSAGE_LENGTH;

verus! {

/// No two routers share an address.
pub open spec fn addrs_unique(rs: Seq<Router>) -> bool {
    forall|i: int, j: int| 0 <= i < j < rs.len() ==> (#[trigger] rs[i]).addr != (#[trigger] rs[j]).addr
}

/// The index of the first router with address `ip`, or -1 if none.
pub open spec fn find_router_index(rs: Seq<Router>, ip: Ipv4) -> int
    decreases rs.len(),
{
    if rs.len() == 0 {
        -1
    } else if rs[0].addr == ip {
        0
    } else {
        let r = find_router_index(rs.drop_first(), ip);
        if r < 0 {
            -1
        } else {
            r + 1
        }
    }
}

/// Some router in the registry has address `ip`.
pub open spec fn has_router(rs: Seq<Router>, ip: Ipv4) -> bool {
    find_router_index(rs, ip) >= 0
}

/// What `find_router_index` returns: a valid index of the first router
/// with the address, or -1 when no router has it.
pub proof fn lemma_find_router_index(rs: Seq<Router>, ip: Ipv4)
    ensures
        find_router_index(rs, ip) >= 0 ==> {
            &&& 0 <= find_router_index(rs, ip) < rs.len()
            &&& rs[find_router_index(rs, ip)].addr == ip
            &&& forall|j: int| 0 <= j < find_router_index(rs, ip) ==> (#[trigger] rs[j]).addr != ip
        },
        find_router_index(rs, ip) < 0 ==> forall|j: int| 0 <= j < rs.len() ==> (#[trigger] rs[j]).addr
            != ip,
    decreases rs.len(),
{
    if rs.len() > 0 && rs[0].addr != ip {
        lemma_find_router_index(rs.drop_first(), ip);
        assert forall|j: int| 0 <= j < rs.len() && (#[trigger] rs[j]).addr == ip implies find_router_index(
            rs,
            ip,
        ) >= 0 by {
            if j > 0 {
                assert(rs.drop_first()[j - 1] == rs[j]);
            }
        }
        if find_router_index(rs, ip) >= 0 {
            assert forall|j: int| 0 <= j < find_router_index(rs, ip) implies (#[trigger] rs[j]).addr
                != ip by {
                if j > 0 {
                    assert(rs.drop_first()[j - 1] == rs[j]);
                }
            }
        }
    }
}

/// Lookups are stable under updating a router in place, as long as the
/// address stays.
pub proof fn lemma_find_router_update(rs: Seq<Router>, i: int, r: Router, ip: Ipv4)
    requires
        0 <= i < rs.len(),
        rs[i].addr == r.addr,
    ensures
        find_router_index(rs.update(i, r), ip) == find_router_index(rs, ip),
    decreases rs.len(),
{
    let rs2 = rs.update(i, r);
    if i == 0 {
        if rs[0].addr != ip {
            assert(rs2.drop_first() =~= rs.drop_first());
        }
    } else {
        assert(rs2[0] == rs[0]);
        if rs[0].addr != ip {
            assert(rs2.drop_first() =~= rs.drop_first().update(i - 1, r));
            lemma_find_router_update(rs.drop_first(), i - 1, r, ip);
        }
    }
}

/// Appending a router changes lookups only for its own address, and
/// only when no router had it.
pub proof fn lemma_find_router_push(rs: Seq<Router>, r: Router, ip: Ipv4)
    ensures
        find_router_index(rs, ip) >= 0 ==> find_router_index(rs.push(r), ip) == find_router_index(
            rs,
            ip,
        ),
        find_router_index(rs, ip) < 0 && r.addr == ip ==> find_router_index(rs.push(r), ip)
            == rs.len(),
        find_router_index(rs, ip) < 0 && r.addr != ip ==> find_router_index(rs.push(r), ip) < 0,
    decreases rs.len(),
{
    if rs.len() == 0 {
        assert(rs.push(r)[0] == r);
        assert(rs.push(r).drop_first() =~= Seq::<Router>::empty());
        assert(find_router_index(Seq::<Router>::empty(), ip) == -1);
    } else if rs[0].addr != ip {
        assert(rs.push(r)[0] == rs[0]);
        assert(rs.push(r).drop_first() =~= rs.drop_first().push(r));
        lemma_find_router_push(rs.drop_first(), r, ip);
    }
}

/// How many messages all routers hold, inboxes and queues together.
pub open spec fn transit_sum(rs: Seq<Router>) -> int
    decreases rs.len(),
{
    if rs.len() == 0 {
        0
    } else {
        transit_sum(rs.drop_last()) + rs.last().spec_transit()
    }
}

/// Every summand is non-negative and no router holds more than the
/// whole sum.
pub proof fn lemma_transit_sum_bounds(rs: Seq<Router>, i: int)
    requires
        0 <= i < rs.len(),
    ensures
        transit_sum(rs) >= rs[i].spec_transit() >= 0,
    decreases rs.len(),
{
    lemma_transit_sum_nonneg(rs.drop_last());
    if i < rs.len() - 1 {
        lemma_transit_sum_bounds(rs.drop_last(), i);
    }
}

/// The sum of message counts is never negative.
pub proof fn lemma_transit_sum_nonneg(rs: Seq<Router>)
    ensures
        transit_sum(rs) >= 0,
    decreases rs.len(),
{
    if rs.len() > 0 {
        lemma_transit_sum_nonneg(rs.drop_last());
    }
}

/// Replacing one router changes the sum by that router's difference.
pub proof fn lemma_transit_sum_update(rs: Seq<Router>, i: int, r: Router)
    requires
        0 <= i < rs.len(),
    ensures
        transit_sum(rs.update(i, r)) == transit_sum(rs) - rs[i].spec_transit()
            + r.spec_transit(),
    decreases rs.len(),
{
    let rs2 = rs.update(i, r);
    if i == rs.len() - 1 {
        assert(rs2.drop_last() =~= rs.drop_last());
    } else {
        assert(rs2.drop_last() =~= rs.drop_last().update(i, r));
        assert(rs2.last() == rs.last());
        lemma_transit_sum_update(rs.drop_last(), i, r);
    }
}

/// Appending a router adds that router's messages to the sum.
pub proof fn lemma_transit_sum_push(rs: Seq<Router>, r: Router)
    ensures
        transit_sum(rs.push(r)) == transit_sum(rs) + r.spec_transit(),
{
    assert(rs.push(r).drop_last() =~= rs);
}

/// Each router's current routing table, by address.
pub open spec fn registry_tables(rs: Seq<Router>) -> Map<Ipv4, Seq<RouteEntry>>
    decreases rs.len(),
{
    if rs.len() == 0 {
        Map::empty()
    } else {
        registry_tables(rs.drop_last()).insert(rs.last().addr, rs.last().routes@)
    }
}

/// With distinct addresses, the table snapshot holds exactly the
/// registered routers' tables.
pub proof fn lemma_registry_tables(rs: Seq<Router>, ip: Ipv4)
    requires
        addrs_unique(rs),
    ensures
        registry_tables(rs).dom().contains(ip) <==> has_router(rs, ip),
        has_router(rs, ip) ==> registry_tables(rs)[ip] == rs[find_router_index(rs, ip)].routes@,
    decreases rs.len(),
{
    lemma_find_router_index(rs, ip);
    if rs.len() > 0 {
        let head = rs.drop_last();
        lemma_registry_tables(head, ip);
        lemma_find_router_index(head, ip);
        let i = find_router_index(rs, ip);
        let ih = find_router_index(head, ip);
        if ih >= 0 {
            assert(head[ih] == rs[ih]);
            assert(has_router(rs, ip));
        }
        if rs.last().addr == ip {
            assert(rs[rs.len() - 1].addr == ip);
            assert(has_router(rs, ip));
            assert(i == rs.len() - 1) by {
                if i < rs.len() - 1 {
                    assert(rs[i].addr == rs[rs.len() - 1].addr);
                }
            }
        } else {
            if i >= 0 {
                assert(i < rs.len() - 1);
                assert(head[i] == rs[i]);
                assert(ih == i) by {
                    lemma_find_router_index(head, ip);
                    if ih < 0 {
                        assert(head[i].addr != ip);
                    } else {
                        assert(rs[ih] == head[ih]);
                        if ih < i {
                            assert(rs[ih].addr != ip);
                        }
                        if i < ih {
                            assert(head[i].addr != ip);
                        }
                    }
                }
            }
            if ih < 0 && i >= 0 && i == rs.len() - 1 {
                assert(rs[i].addr == ip);
                assert(false);
            }
        }
    }
}

/// The snapshot a route update reads — the registry without the
/// updating router — is the whole registry's snapshot with that
/// router's address removed: `update_routes` computes exactly what one
/// router's share of a synchronous `spec_tick` computes.
pub proof fn lemma_registry_tables_remove(rs: Seq<Router>, i: int)
    requires
        addrs_unique(rs),
        0 <= i < rs.len(),
    ensures
        registry_tables(rs.remove(i)) =~= registry_tables(rs).remove(rs[i].addr),
{
    let rest = rs.remove(i);
    rs.remove_ensures(i);
    assert(addrs_unique(rest)) by {
        assert forall|a: int, b: int|
            0 <= a < b < rest.len() implies (#[trigger] rest[a]).addr != (#[trigger] rest[b]).addr by {
            if a < i {
                assert(rest[a] == rs[a]);
            } else {
                assert(rest[a] == rs[a + 1]);
            }
            if b < i {
                assert(rest[b] == rs[b]);
            } else {
                assert(rest[b] == rs[b + 1]);
            }
        }
    }
    assert forall|ip: Ipv4|
        registry_tables(rest).dom().contains(ip) <==> registry_tables(rs).remove(
            rs[i].addr,
        ).dom().contains(ip) by {
        lemma_registry_tables(rest, ip);
        lemma_registry_tables(rs, ip);
        lemma_find_router_index(rest, ip);
        lemma_find_router_index(rs, ip);
        if has_router(rest, ip) {
            let j = find_router_index(rest, ip);
            if j < i {
                assert(rs[j] == rest[j]);
            } else {
                assert(rs[j + 1] == rest[j]);
            }
            assert(has_router(rs, ip));
            assert(ip != rs[i].addr) by {
                if j < i {
                    assert(rs[j].addr == ip);
                } else {
                    assert(rs[j + 1].addr == ip);
                }
            }
        }
        if has_router(rs, ip) && ip != rs[i].addr {
            let j = find_router_index(rs, ip);
            assert(j != i);
            if j < i {
                assert(rest[j] == rs[j]);
                assert(rest[j].addr == ip);
            } else {
                assert(rest[j - 1] == rs[j]);
                assert(rest[j - 1].addr == ip);
            }
            assert(has_router(rest, ip));
        }
    }
    assert forall|ip: Ipv4|
        registry_tables(rest).dom().contains(ip) implies #[trigger] registry_tables(rest)[ip]
        == registry_tables(rs).remove(rs[i].addr)[ip] by {
        lemma_registry_tables(rest, ip);
        lemma_registry_tables(rs, ip);
        lemma_find_router_index(rest, ip);
        lemma_find_router_index(rs, ip);
        let j = find_router_index(rest, ip);
        let j2 = find_router_index(rs, ip);
        if j < i {
            assert(rest[j] == rs[j]);
            assert(j2 == j) by {
                if j2 < j {
                    assert(rs[j2].addr == ip && rest[j2] == rs[j2]);
                    assert(rest[j2].addr != ip);
                }
                if j < j2 {
                    assert(rs[j].addr != ip);
                }
            }
        } else {
            assert(rest[j] == rs[j + 1]);
            assert(j2 == j + 1) by {
                assert(rs[j + 1].addr == ip);
                if j2 < j + 1 {
                    if j2 < i {
                        assert(rest[j2] == rs[j2]);
                        assert(rest[j2].addr != ip);
                        assert(rs[j2].addr != ip);
                    } else {
                        assert(rest[j2 - 1] == rs[j2]);
                        assert(rest[j2 - 1].addr != ip || j2 - 1 >= j);
                        if j2 - 1 < j {
                            assert(rest[j2 - 1].addr != ip);
                        }
                        if j2 == i {
                            assert(rs[i].addr == ip);
                            assert(rest[j].addr == ip);
                            assert(rs[j + 1].addr == rs[i].addr);
                        }
                    }
                }
                if j + 1 < j2 {
                    assert(rs[j + 1].addr != ip);
                }
            }
        }
    }
}

/// With every router well-formed, every table in the snapshot has
/// pairwise-distinct destinations.
pub proof fn lemma_registry_tables_unique(rs: Seq<Router>)
    requires
        forall|i: int| 0 <= i < rs.len() ==> (#[trigger] rs[i]).wf(),
    ensures
        reg_unique(registry_tables(rs)),
    decreases rs.len(),
{
    if rs.len() > 0 {
        lemma_registry_tables_unique(rs.drop_last());
        assert(rs[rs.len() - 1].wf());
        assert(unique_dsts(rs.last().routes@));
    }
}

/// What ingress did with a received client frame.
#[derive(Clone, Copy, PartialEq, Eq, Structural, Debug)]
pub enum AcceptOutcome {
    /// The frame became a message in its source router's inbox, bound
    /// for `target`.
    Queued { target: SockAddrV4 },
    /// The frame was discarded at ingress for the given reason.
    Rejected { reason: DropReason },
}

/// What one turn of a router's forwarding task did.
#[derive(Debug)]
pub enum ForwardOutcome {
    /// Inbox and queue were empty: nothing to forward.
    Idle,
    /// The head message was addressed to this router: emit `data` to
    /// the client at `to` over the shared socket.
    Delivered { to: SockAddrV4, data: Vec<u8> },
    /// The head message goes to neighbor `hop`, but is withheld here:
    /// sleep `delay` milliseconds, then hand it over with `deliver_to`,
    /// so the hop sees it only after its link time has passed.
    Forwarded { hop: Ipv4, delay: u64, message: Message },
    /// The head message was discarded for the given reason.
    Dropped { reason: DropReason },
}

/// A router's queue after its inbox is drained into it.
pub open spec fn drained_queue(r: Router, c: Counters) -> Seq<Message> {
    spec_drain(r.queue@, r.inbox@, r.queue_size as nat, c).0
}

/// The counters after a router's inbox is drained into its queue.
pub open spec fn drained_counters(r: Router, c: Counters) -> Counters {
    spec_drain(r.queue@, r.inbox@, r.queue_size as nat, c).1
}

/// The counters after dropping, newest first, every queued message past
/// a new queue bound, each as a queue overflow.
pub open spec fn spec_drop_tail(q: Seq<Message>, size: nat, c: Counters) -> Counters
    decreases q.len(),
{
    if q.len() <= size {
        c
    } else {
        spec_drop_tail(
            q.drop_last(),
            size,
            c.spec_record_drop(DropReason::QueueOverflow, q.last().len),
        )
    }
}

/// The decision one turn of the forwarding task takes: none when the
/// drained queue is empty, otherwise the routing decision for its head.
pub open spec fn step_decision(r: Router, c: Counters) -> Option<Decision> {
    let q = drained_queue(r, c);
    if q.len() == 0 {
        None
    } else {
        Some(spec_decide(r.addr, r.routes@, r.outers@, q[0].target.ip, q[0].len))
    }
}

/// The emulator context: the registry of routers, the buffer pool, and
/// the global counters.
pub struct Emulator {
    /// All routers ever declared, in creation order.
    pub routers: Vec<Router>,
    /// The buffer recycling pool.
    pub pool: Pool,
    /// The loss and receive counters.
    pub counters: Counters,
}

impl Emulator {
    /// Registry invariants: distinct addresses, every router
    /// well-formed, every link's far end registered, and a well-formed
    /// pool.
    pub open spec fn wf(self) -> bool {
        &&& self.pool.wf()
        &&& addrs_unique(self.routers@)
        &&& forall|i: int| 0 <= i < self.routers@.len() ==> (#[trigger] self.routers@[i]).wf()
        &&& forall|i: int, k: int|
            0 <= i < self.routers@.len() && 0 <= k < self.routers@[i].outers@.len() ==> has_router(
                self.routers@,
                (#[trigger] self.routers@[i].outers@[k]).to,
            )
    }

    /// Buffers outstanding from the pool beyond those inside routers'
    /// inboxes and queues: what ingress or delivery code holds at this
    /// moment.
    pub open spec fn holding(self) -> int {
        self.pool.outstanding() - transit_sum(self.routers@)
    }

    /// A fresh emulator: no routers, an empty pool, zero counters.
    pub fn new() -> (r: Emulator)
        ensures
            r.wf(),
            r.routers@.len() == 0,
            r.holding() == 0,
            r.pool.spec_allocated() == 0,
            r.counters == (Counters {
                loss_packets: 0u64,
                loss_bytes: 0u64,
                receive_packets: 0u64,
                receive_bytes: 0u64,
            }),
    {
        Emulator { routers: Vec::new(), pool: Pool::new(), counters: Counters::new() }
    }

    /// The index of the router with address `ip`, if one is registered.
    pub fn find_router(&self, ip: Ipv4) -> (r: Option<usize>)
        ensures
            r is Some <==> has_router(self.routers@, ip),
            r is Some ==> r.unwrap() == find_router_index(self.routers@, ip),
    {
        find_router_in(&self.routers, ip)
    }

    /// Look the address up; when it is new, register a fresh router
    /// under it.  Returns the router's index and whether it was
    /// created, so the caller can spawn its forwarding task exactly
    /// once.
    pub fn get_or_create(&mut self, ip: Ipv4) -> (r: (usize, bool))
        requires
            old(self).wf(),
        ensures
            final(self).wf(),
            final(self).pool == old(self).pool,
            final(self).counters == old(self).counters,
            final(self).holding() == old(self).holding(),
            r.0 < final(self).routers@.len(),
            final(self).routers@[r.0 as int].addr == ip,
            has_router(final(self).routers@, ip),
            !r.1 ==> final(self).routers == old(self).routers && has_router(
                old(self).routers@,
                ip,
            ) && r.0 == find_router_index(old(self).routers@, ip),
            r.1 ==> !has_router(old(self).routers@, ip) && r.0 == old(self).routers@.len() && {
                &&& final(self).routers@.len() == old(self).routers@.len() + 1
                &&& forall|k: int|
                    0 <= k < old(self).routers@.len() ==> final(self).routers@[k] == old(self).routers@[k]
                &&& final(self).routers@[r.0 as int].outers@.len() == 0
                &&& final(self).routers@[r.0 as int].inbox@.len() == 0
                &&& final(self).routers@[r.0 as int].queue@.len() == 0
                &&& final(self).routers@[r.0 as int].routes@.len() == 0
                &&& final(self).routers@[r.0 as int].queue_size == crate::DEFAULT_QUEUE_SIZE
            },
    {
        match find_router_in(&self.routers, ip) {
            Some(i) => {
                proof {
                    lemma_find_router_index(self.routers@, ip);
                }
                (i, false)
            },
            None => {
                let idx = self.routers.len();
                let r = Router::new(ip);
                proof {
                    lemma_transit_sum_push(self.routers@, r);
                }
                let ghost rs0 = self.routers@;
                self.routers.push(r);
                proof {
                    lemma_find_router_index(rs0, ip);
                    lemma_find_router_push(rs0, r, ip);
                    assert forall|i: int, j: int|
                        0 <= i < j < self.routers@.len() implies (#[trigger] self.routers@[i]).addr
                        != (#[trigger] self.routers@[j]).addr by {
                        if j == rs0.len() {
                            assert(self.routers@[i] == rs0[i]);
                        }
                    }
                    assert forall|i: int, k: int|
                        0 <= i < self.routers@.len() && 0 <= k
                            < self.routers@[i].outers@.len() implies has_router(
                        self.routers@,
                        (#[trigger] self.routers@[i].outers@[k]).to,
                    ) by {
                        if i < rs0.len() {
                            assert(self.routers@[i] == rs0[i]);
                            assert(has_router(rs0, rs0[i].outers@[k].to));
                            lemma_find_router_push(rs0, r, rs0[i].outers@[k].to);
                        }
                    }
                }
                (idx, true)
            },
        }
    }

    /// Take a buffer from the pool for an OS read; the caller owes it
    /// back, through `accept_frame` or `release_buffer`.
    pub fn acquire_buffer(&mut self) -> (b: Vec<u8>)
        requires
            old(self).wf(),
            old(self).pool.spec_allocated() < usize::MAX,
        ensures
            final(self).wf(),
            b@.len() == crate::MESSAGE_LENGTH,
            final(self).routers == old(self).routers,
            final(self).counters == old(self).counters,
            final(self).holding() == old(self).holding() + 1,
            final(self).pool.spec_allocated() >= old(self).pool.spec_allocated(),
    {
        self.pool.acquire()
    }

    /// Return a buffer that will not become a message — a control
    /// frame's, an unknown source's, or a delivered frame's.
    pub fn release_buffer(&mut self, b: Vec<u8>)
        requires
            old(self).wf(),
            b@.len() == crate::MESSAGE_LENGTH,
            old(self).holding() >= 1,
        ensures
            final(self).wf(),
            final(self).routers == old(self).routers,
            final(self).counters == old(self).counters,
            final(self).holding() == old(self).holding() - 1,
            final(self).pool.spec_allocated() == old(self).pool.spec_allocated(),
    {
        proof {
            lemma_transit_sum_nonneg(self.routers@);
        }
        self.pool.release(b);
    }

    /// Ingress for one client frame, read into `buffer` with `len`
    /// valid bytes from source `src`: an oversize or short frame, or
    /// one from an unregistered source, is dropped with its counter
    /// effect and the buffer returns to the pool; otherwise the first
    /// six bytes name the target, they are overwritten with the
    /// source's identity, and the message joins the source router's
    /// inbox.
    pub fn accept_frame(&mut self, buffer: Vec<u8>, len: usize, src: SockAddrV4) -> (r:
        AcceptOutcome)
        requires
            old(self).wf(),
            buffer@.len() == MESSAGE_LENGTH,
            len <= MESSAGE_LENGTH,
            old(self).holding() >= 1,
        ensures
            final(self).wf(),
            final(self).holding() == old(self).holding() - 1,
            final(self).pool.spec_allocated() == old(self).pool.spec_allocated(),
            len == MESSAGE_LENGTH ==> {
                &&& r == (AcceptOutcome::Rejected { reason: DropReason::Oversize })
                &&& final(self).routers == old(self).routers
                &&& final(self).counters == old(self).counters.spec_record_drop(
                    DropReason::Oversize,
                    len,
                )
            },
            len < 6 ==> {
                &&& r == (AcceptOutcome::Rejected { reason: DropReason::TooShort })
                &&& final(self).routers == old(self).routers
                &&& final(self).counters == old(self).counters
            },
            6 <= len < MESSAGE_LENGTH && !has_router(old(self).routers@, src.ip) ==> {
                &&& r == (AcceptOutcome::Rejected { reason: DropReason::UnknownSource })
                &&& final(self).routers == old(self).routers
                &&& final(self).counters == old(self).counters
            },
            6 <= len < MESSAGE_LENGTH && has_router(old(self).routers@, src.ip) ==> {
                let j = find_router_index(old(self).routers@, src.ip);
                let m = final(self).routers@[j].inbox@.last();
                &&& r == (AcceptOutcome::Queued { target: header_addr(buffer@) })
                &&& final(self).counters == old(self).counters
                &&& final(self).routers@.len() == old(self).routers@.len()
                &&& forall|k: int|
                    0 <= k < old(self).routers@.len() && k != j ==> final(self).routers@[k] == old(self).routers@[k]
                &&& final(self).routers@[j].addr == old(self).routers@[j].addr
                &&& final(self).routers@[j].outers == old(self).routers@[j].outers
                &&& final(self).routers@[j].queue == old(self).routers@[j].queue
                &&& final(self).routers@[j].queue_size == old(self).routers@[j].queue_size
                &&& final(self).routers@[j].routes == old(self).routers@[j].routes
                &&& final(self).routers@[j].inbox@ == old(self).routers@[j].inbox@.push(m)
                &&& m.target == header_addr(buffer@)
                &&& m.len == len
                &&& m.buffer@.len() == MESSAGE_LENGTH
                &&& m.buffer@.subrange(0, 6) == header_bytes(src)
                &&& forall|q: int| 6 <= q < MESSAGE_LENGTH ==> m.buffer@[q] == buffer@[q]
            },
    {
        proof {
            lemma_transit_sum_nonneg(self.routers@);
        }
        if len == MESSAGE_LENGTH {
            drop_packet(DropReason::Oversize, len, buffer, &mut self.counters, &mut self.pool);
            return AcceptOutcome::Rejected { reason: DropReason::Oversize };
        }
        if len < 6 {
            drop_packet(DropReason::TooShort, len, buffer, &mut self.counters, &mut self.pool);
            return AcceptOutcome::Rejected { reason: DropReason::TooShort };
        }
        let jo = self.find_router(src.ip);
        match jo {
            None => {
                drop_packet(
                    DropReason::UnknownSource,
                    len,
                    buffer,
                    &mut self.counters,
                    &mut self.pool,
                );
                AcceptOutcome::Rejected { reason: DropReason::UnknownSource }
            },
            Some(j) => {
                proof {
                    lemma_find_router_index(self.routers@, src.ip);
                }
                let target = decode_header(buffer.as_slice());
                let mut buffer = buffer;
                encode_source(&mut buffer, src);
                let m = Message { target, buffer, len };
                let ghost rs0 = self.routers@;
                let ghost m_g = m;
                self.routers[j].inbox.push(m);
                proof {
                    lemma_transit_sum_update(rs0, j as int, self.routers@[j as int]);
                    assert forall|a: int, b: int|
                        0 <= a < b < self.routers@.len() implies (#[trigger] self.routers@[a]).addr
                        != (#[trigger] self.routers@[b]).addr by {
                        assert(self.routers@[a].addr == rs0[a].addr);
                        assert(self.routers@[b].addr == rs0[b].addr);
                    }
                    assert(self.routers@[j as int].wf()) by {
                        assert(rs0[j as int].wf());
                        assert(self.routers@[j as int].inbox@ == rs0[j as int].inbox@.push(m_g));
                        assert(m_g.wf());
                    }
                    assert forall|a: int, k: int|
                        0 <= a < self.routers@.len() && 0 <= k
                            < self.routers@[a].outers@.len() implies has_router(
                        self.routers@,
                        (#[trigger] self.routers@[a].outers@[k]).to,
                    ) by {
                        assert(self.routers@[a].outers == rs0[a].outers);
                        assert(has_router(rs0, rs0[a].outers@[k].to));
                        lemma_find_router_update(rs0, j as int, self.routers@[j as int], rs0[a].outers@[k].to);
                        assert(self.routers@ =~= rs0.update(j as int, self.routers@[j as int]));
                    }
                }
                AcceptOutcome::Queued { target }
            },
        }
    }

    /// One turn of router `i`'s forwarding task: drain the inbox into
    /// the bounded queue (overflow drops), pop the head message, and
    /// act on the routing decision — deliver it locally (the caller
    /// emits `data` to the OS), or drop it with its counter effect; a
    /// message bound for a neighbor is not enqueued yet but returned,
    /// withheld from the network until the caller has slept its pacing
    /// `delay` and hands it to `deliver_to`.  No datagram is handed out
    /// for delivery unless its destination is this router's own
    /// address, and no buffer leaks: `holding()` grows by exactly the
    /// one withheld message, else stays.
    pub fn forward_step(&mut self, i: usize) -> (r: ForwardOutcome)
        requires
            old(self).wf(),
            i < old(self).routers@.len(),
            old(self).holding() >= 0,
        ensures
            final(self).wf(),
            final(self).holding() == old(self).holding() + (if r is Forwarded {
                1int
            } else {
                0int
            }),
            final(self).pool.spec_allocated() == old(self).pool.spec_allocated(),
            final(self).routers@.len() == old(self).routers@.len(),
            forall|k: int|
                0 <= k < old(self).routers@.len() ==> {
                    let rk = #[trigger] final(self).routers@[k];
                    &&& rk.addr == old(self).routers@[k].addr
                    &&& rk.outers == old(self).routers@[k].outers
                    &&& rk.routes == old(self).routers@[k].routes
                    &&& rk.queue_size == old(self).routers@[k].queue_size
                },
            final(self).routers@[i as int].inbox@.len() == 0,
            (r is Idle <==> step_decision(old(self).routers@[i as int], old(self).counters)
                is None),
            r is Idle ==> {
                &&& forall|k: int|
                    0 <= k < old(self).routers@.len() && k != i ==> final(self).routers@[k] == old(self).routers@[k]
                &&& final(self).routers@[i as int].inbox@.len() == 0
                &&& final(self).routers@[i as int].queue@ == drained_queue(
                    old(self).routers@[i as int],
                    old(self).counters,
                )
                &&& final(self).counters == drained_counters(
                    old(self).routers@[i as int],
                    old(self).counters,
                )
            },
            ({
                let r0 = old(self).routers@[i as int];
                let c0 = old(self).counters;
                let q1 = drained_queue(r0, c0);
                let c1 = drained_counters(r0, c0);
                &&& (step_decision(r0, c0) == Some(Decision::Local) ==> {
                    &&& r matches ForwardOutcome::Delivered { to, data } && to == q1[0].target
                        && data@ == q1[0].buffer@.subrange(0, q1[0].len as int)
                    &&& final(self).counters == c1
                    &&& final(self).routers@[i as int].queue@ == q1.drop_first()
                    &&& final(self).routers@[i as int].inbox@.len() == 0
                    &&& forall|k: int|
                        0 <= k < old(self).routers@.len() && k != i ==> final(self).routers@[k]
                            == old(self).routers@[k]
                })
                &&& (forall|hop: Ipv4, delay: u64|
                    step_decision(r0, c0) == Some(Decision::Forward { hop, delay }) ==> {
                        &&& r matches ForwardOutcome::Forwarded { hop: h2, delay: d2, message: m2 }
                            && h2 == hop && d2 == delay && m2 == q1[0]
                        &&& final(self).counters == c1
                        &&& has_router(old(self).routers@, hop)
                        &&& final(self).routers@[i as int].queue@ == q1.drop_first()
                        &&& final(self).routers@[i as int].inbox@.len() == 0
                        &&& forall|k: int|
                            0 <= k < old(self).routers@.len() && k != i ==> final(self).routers@[k]
                                == old(self).routers@[k]
                    })
                &&& (forall|reason: DropReason|
                    step_decision(r0, c0) == Some(Decision::Drop { reason }) ==> {
                        &&& r matches ForwardOutcome::Dropped { reason: x2 } && x2 == reason
                        &&& final(self).counters == c1.spec_record_drop(reason, q1[0].len)
                        &&& final(self).routers@[i as int].queue@ == q1.drop_first()
                        &&& final(self).routers@[i as int].inbox@.len() == 0
                        &&& forall|k: int|
                            0 <= k < old(self).routers@.len() && k != i ==> final(self).routers@[k]
                                == old(self).routers@[k]
                    })
            }),
            r matches ForwardOutcome::Delivered { to, data } ==> to.ip == old(self).routers@[i as int].addr && has_router(old(self).routers@, to.ip),
    {
        let ghost rs_old = self.routers@;
        proof {
            lemma_transit_sum_bounds(rs_old, i as int);
        }
        self.routers[i].drain_inbox(&mut self.counters, &mut self.pool);
        proof {
            lemma_transit_sum_update(rs_old, i as int, self.routers@[i as int]);
            assert(self.routers@ =~= rs_old.update(i as int, self.routers@[i as int]));
            assert forall|a: int, b: int|
                0 <= a < b < self.routers@.len() implies (#[trigger] self.routers@[a]).addr != (
            #[trigger] self.routers@[b]).addr by {
                assert(self.routers@[a].addr == rs_old[a].addr);
                assert(self.routers@[b].addr == rs_old[b].addr);
            }
            assert forall|a: int, k: int|
                0 <= a < self.routers@.len() && 0 <= k
                    < self.routers@[a].outers@.len() implies has_router(
                self.routers@,
                (#[trigger] self.routers@[a].outers@[k]).to,
            ) by {
                assert(self.routers@[a].outers == rs_old[a].outers);
                assert(has_router(rs_old, rs_old[a].outers@[k].to));
                lemma_find_router_update(
                    rs_old,
                    i as int,
                    self.routers@[i as int],
                    rs_old[a].outers@[k].to,
                );
            }
        }
        if self.routers[i].queue.len() == 0 {
            return ForwardOutcome::Idle;
        }
        let ghost rs1 = self.routers@;
        let ghost q1 = drained_queue(rs_old[i as int], old(self).counters);
        let m = self.routers[i].queue.remove(0);
        proof {
            assert(q1.remove(0) =~= q1.drop_first());
            lemma_transit_sum_update(rs1, i as int, self.routers@[i as int]);
            assert(self.routers@ =~= rs1.update(i as int, self.routers@[i as int]));
            assert(m.wf());
            assert forall|a: int, b: int|
                0 <= a < b < self.routers@.len() implies (#[trigger] self.routers@[a]).addr != (
            #[trigger] self.routers@[b]).addr by {
                assert(self.routers@[a].addr == rs1[a].addr);
                assert(self.routers@[b].addr == rs1[b].addr);
            }
            assert forall|a: int, k: int|
                0 <= a < self.routers@.len() && 0 <= k
                    < self.routers@[a].outers@.len() implies has_router(
                self.routers@,
                (#[trigger] self.routers@[a].outers@[k]).to,
            ) by {
                assert(self.routers@[a].outers == rs1[a].outers);
                assert(has_router(rs1, rs1[a].outers@[k].to));
                lemma_find_router_update(
                    rs1,
                    i as int,
                    self.routers@[i as int],
                    rs1[a].outers@[k].to,
                );
            }
        }
        let d = self.routers[i].decide(m.target.ip, m.len);
        match d {
            Decision::Local => {
                let data = copy_prefix(&m.buffer, m.len);
                proof {
                    lemma_transit_sum_nonneg(self.routers@);
                    lemma_transit_sum_bounds(self.routers@, i as int);
                    lemma_find_router_index(rs_old, rs_old[i as int].addr);
                }
                self.pool.release(m.buffer);
                ForwardOutcome::Delivered { to: m.target, data }
            },
            Decision::Forward { hop, delay } => {
                proof {
                    let r_now = self.routers@[i as int];
                    assert(find_link(r_now.outers@, hop) is Some);
                    crate::routes::lemma_find_link_index(r_now.outers@, hop);
                    let li = crate::routes::find_link_index(r_now.outers@, hop);
                    assert(r_now.outers@[li].to == hop);
                    assert(has_router(self.routers@, hop));
                    lemma_find_router_update(rs_old, i as int, rs1[i as int], hop);
                    lemma_find_router_update(rs1, i as int, self.routers@[i as int], hop);
                }
                ForwardOutcome::Forwarded { hop, delay, message: m }
            },
            Decision::Drop { reason } => {
                proof {
                    lemma_transit_sum_nonneg(self.routers@);
                    lemma_transit_sum_bounds(self.routers@, i as int);
                }
                drop_packet(reason, m.len, m.buffer, &mut self.counters, &mut self.pool);
                ForwardOutcome::Dropped { reason }
            },
        }
    }

    /// Hand a paced message to its next hop's inbox.  The forwarding
    /// task calls this after sleeping the delay that `forward_step`
    /// returned beside the withheld message, so a packet reaches the
    /// next router only once its link time has passed.  The hop must be
    /// registered: `forward_step` guarantees its hop is, and routers
    /// are never removed.
    pub fn deliver_to(&mut self, hop: Ipv4, m: Message)
        requires
            old(self).wf(),
            m.wf(),
            has_router(old(self).routers@, hop),
            old(self).holding() >= 1,
        ensures
            final(self).wf(),
            final(self).holding() == old(self).holding() - 1,
            final(self).pool == old(self).pool,
            final(self).counters == old(self).counters,
            final(self).routers@.len() == old(self).routers@.len(),
            ({
                let j = find_router_index(old(self).routers@, hop);
                &&& final(self).routers@[j].inbox@ == old(self).routers@[j].inbox@.push(m)
                &&& final(self).routers@[j].addr == old(self).routers@[j].addr
                &&& final(self).routers@[j].outers == old(self).routers@[j].outers
                &&& final(self).routers@[j].queue == old(self).routers@[j].queue
                &&& final(self).routers@[j].queue_size == old(self).routers@[j].queue_size
                &&& final(self).routers@[j].routes == old(self).routers@[j].routes
                &&& forall|k: int|
                    0 <= k < old(self).routers@.len() && k != j ==> final(self).routers@[k] == old(
                        self,
                    ).routers@[k]
            }),
    {
        let jo = self.find_router(hop);
        let j = match jo {
            Some(j) => j,
            None => {
                proof {
                    assert(false);
                }
                0
            },
        };
        proof {
            lemma_find_router_index(self.routers@, hop);
        }
        let ghost rs0 = self.routers@;
        let ghost m_g = m;
        self.routers[j].inbox.push(m);
        proof {
            lemma_transit_sum_update(rs0, j as int, self.routers@[j as int]);
            assert(self.routers@ =~= rs0.update(j as int, self.routers@[j as int]));
            assert(self.routers@[j as int].wf()) by {
                assert(rs0[j as int].wf());
                assert(self.routers@[j as int].inbox@ == rs0[j as int].inbox@.push(m_g));
                assert(m_g.wf());
            }
            assert forall|a: int, b: int|
                0 <= a < b < self.routers@.len() implies (#[trigger] self.routers@[a]).addr != (
            #[trigger] self.routers@[b]).addr by {
                assert(self.routers@[a].addr == rs0[a].addr);
                assert(self.routers@[b].addr == rs0[b].addr);
            }
            assert forall|a: int, k: int|
                0 <= a < self.routers@.len() && 0 <= k
                    < self.routers@[a].outers@.len() implies has_router(
                self.routers@,
                (#[trigger] self.routers@[a].outers@[k]).to,
            ) by {
                assert(self.routers@[a].outers == rs0[a].outers);
                assert(has_router(rs0, rs0[a].outers@[k].to));
                lemma_find_router_update(rs0, j as int, self.routers@[j as int], rs0[a].outers@[k].to);
            }
        }
    }

    /// The periodic route update for router `i`: its table becomes the
    /// two-pass relaxation over its own links and the other routers'
    /// current tables.  Nothing else moves.
    pub fn update_routes(&mut self, i: usize)
        requires
            old(self).wf(),
            i < old(self).routers@.len(),
        ensures
            final(self).wf(),
            final(self).pool == old(self).pool,
            final(self).counters == old(self).counters,
            final(self).holding() == old(self).holding(),
            final(self).routers@.len() == old(self).routers@.len(),
            forall|k: int|
                0 <= k < old(self).routers@.len() && k != i ==> final(self).routers@[k] == old(self).routers@[k],
            final(self).routers@[i as int].addr == old(self).routers@[i as int].addr,
            final(self).routers@[i as int].outers == old(self).routers@[i as int].outers,
            final(self).routers@[i as int].inbox == old(self).routers@[i as int].inbox,
            final(self).routers@[i as int].queue == old(self).routers@[i as int].queue,
            final(self).routers@[i as int].queue_size == old(self).routers@[i as int].queue_size,
            final(self).routers@[i as int].routes@ == spec_recompute(
                old(self).routers@[i as int].addr,
                old(self).routers@[i as int].outers@,
                registry_tables(old(self).routers@.remove(i as int)),
            ),
    {
        let ghost rs0 = self.routers@;
        let mut r = self.routers.remove(i);
        proof {
            assert forall|k: int| 0 <= k < self.routers@.len() implies #[trigger] self.routers@[k]
                == (if k < i {
                rs0[k]
            } else {
                rs0[k + 1]
            }) by {
                assert(self.routers@ == rs0.remove(i as int));
            }
            assert forall|a: int, b: int|
                0 <= a < b < self.routers@.len() implies (#[trigger] self.routers@[a]).addr != (
            #[trigger] self.routers@[b]).addr by {}
            assert(forall|k: int|
                0 <= k < self.routers@.len() ==> (#[trigger] self.routers@[k]).wf());
        }
        let tbl = recompute(r.addr, &r.outers, &self.routers);
        let ghost reg = registry_tables(self.routers@);
        proof {
            lemma_registry_tables_unique(self.routers@);
            lemma_recompute_cost(r.addr, r.outers@, reg, r.addr);
            lemma_recompute_hops(r.addr, r.outers@, reg);
        }
        r.routes = tbl;
        proof {
            assert(r.wf()) by {
                assert(rs0[i as int].wf());
                assert forall|p: int| 0 <= p < r.routes@.len() implies has_link(
                    r.outers@,
                    (#[trigger] r.routes@[p]).hop,
                ) || r.routes@[p].dst == r.addr by {
                    assert(hops_valid(r.routes@, r.outers@));
                    assert(has_pos_link(r.outers@, r.routes@[p].hop));
                    lemma_pos_link_is_link(r.outers@, r.routes@[p].hop);
                }
            }
        }
        let ghost r_new = r;
        self.routers.insert(i, r);
        proof {
            assert(self.routers@ =~= rs0.update(i as int, r_new));
            lemma_transit_sum_update(rs0, i as int, r_new);
            assert forall|a: int, b: int|
                0 <= a < b < self.routers@.len() implies (#[trigger] self.routers@[a]).addr != (
            #[trigger] self.routers@[b]).addr by {
                assert(self.routers@[a].addr == rs0[a].addr);
                assert(self.routers@[b].addr == rs0[b].addr);
            }
            assert forall|a: int, k: int|
                0 <= a < self.routers@.len() && 0 <= k
                    < self.routers@[a].outers@.len() implies has_router(
                self.routers@,
                (#[trigger] self.routers@[a].outers@[k]).to,
            ) by {
                assert(self.routers@[a].outers == rs0[a].outers);
                assert(has_router(rs0, rs0[a].outers@[k].to));
                lemma_find_router_update(rs0, i as int, r_new, rs0[a].outers@[k].to);
            }
        }
    }

    /// The controller's link mutation: make sure the target router
    /// exists (creating it when new, so the caller can spawn its task),
    /// then insert or replace the focused router's link to it with the
    /// given bandwidth.
    pub fn set_link(&mut self, focus: usize, to: Ipv4, bw: usize) -> (created: bool)
        requires
            old(self).wf(),
            focus < old(self).routers@.len(),
        ensures
            final(self).wf(),
            final(self).pool == old(self).pool,
            final(self).counters == old(self).counters,
            final(self).holding() == old(self).holding(),
            has_router(final(self).routers@, to),
            created <==> !has_router(old(self).routers@, to),
            final(self).routers@.len() == old(self).routers@.len() + (if created {
                1int
            } else {
                0int
            }),
            forall|k: int|
                0 <= k < old(self).routers@.len() && k != focus ==> final(self).routers@[k] == old(self).routers@[k],
            created ==> {
                let nr = final(self).routers@.last();
                &&& nr.addr == to
                &&& nr.outers@.len() == 0
                &&& nr.inbox@.len() == 0
                &&& nr.queue@.len() == 0
                &&& nr.routes@.len() == 0
                &&& nr.queue_size == crate::DEFAULT_QUEUE_SIZE
            },
            final(self).routers@[focus as int].outers@ == crate::routes::spec_set_link(
                old(self).routers@[focus as int].outers@,
                to,
                bw,
            ),
            final(self).routers@[focus as int].addr == old(self).routers@[focus as int].addr,
            final(self).routers@[focus as int].inbox == old(self).routers@[focus as int].inbox,
            final(self).routers@[focus as int].queue == old(self).routers@[focus as int].queue,
            final(self).routers@[focus as int].queue_size == old(self).routers@[focus as int].queue_size,
            final(self).routers@[focus as int].routes == old(self).routers@[focus as int].routes,
    {
        let (_, created) = self.get_or_create(to);
        let ghost rs1 = self.routers@;
        proof {
            lemma_find_router_index(rs1, to);
        }
        crate::routes::set_link_in(&mut self.routers[focus].outers, to, bw);
        proof {
            let s0 = rs1[focus as int].outers@;
            crate::routes::lemma_set_link(s0, to, bw);
            crate::routes::lemma_find_link_index(s0, to);
            let rf = self.routers@[focus as int];
            assert(self.routers@ =~= rs1.update(focus as int, rf));
            lemma_transit_sum_update(rs1, focus as int, rf);
            lemma_find_router_update(rs1, focus as int, rf, to);
            assert forall|a: int, b: int|
                0 <= a < b < self.routers@.len() implies (#[trigger] self.routers@[a]).addr != (
            #[trigger] self.routers@[b]).addr by {
                assert(self.routers@[a].addr == rs1[a].addr);
                assert(self.routers@[b].addr == rs1[b].addr);
            }
            assert(rf.wf()) by {
                assert(rs1[focus as int].wf());
                assert forall|p: int| 0 <= p < rf.routes@.len() implies has_link(
                    rf.outers@,
                    (#[trigger] rf.routes@[p]).hop,
                ) || rf.routes@[p].dst == rf.addr by {
                    let h = rf.routes@[p].hop;
                    if h != to && has_link(s0, h) {
                        assert(find_link(rf.outers@, h) == find_link(s0, h));
                        lemma_find_link_index(rf.outers@, h);
                        lemma_find_link_index(s0, h);
                        assert(find_link(s0, h) is Some);
                        assert(has_link(rf.outers@, h));
                    }
                    if h == to {
                        lemma_find_link_index(rf.outers@, h);
                        assert(find_link(rf.outers@, to) is Some);
                        assert(has_link(rf.outers@, h));
                    }
                }
            }
            assert forall|a: int, k: int|
                0 <= a < self.routers@.len() && 0 <= k
                    < self.routers@[a].outers@.len() implies has_router(
                self.routers@,
                (#[trigger] self.routers@[a].outers@[k]).to,
            ) by {
                let li = crate::routes::find_link_index(s0, to);
                if a != focus {
                    assert(self.routers@[a].outers == rs1[a].outers);
                    assert(has_router(rs1, rs1[a].outers@[k].to));
                } else {
                    if li < 0 {
                        if k < s0.len() {
                            assert(rf.outers@[k] == s0[k]);
                            assert(has_router(rs1, s0[k].to));
                        } else {
                            assert(rf.outers@[k] == (Link { to, bw }));
                            assert(has_router(rs1, to));
                        }
                    } else {
                        if k == li {
                            assert(rf.outers@[k] == (Link { to, bw }));
                            assert(has_router(rs1, to));
                        } else {
                            assert(rf.outers@[k] == s0[k]);
                            assert(has_router(rs1, s0[k].to));
                        }
                    }
                }
                lemma_find_router_update(rs1, focus as int, rf, self.routers@[a].outers@[k].to);
            }
        }
        created
    }

    /// The controller's queue bound mutation on the focused router:
    /// drop the newest queued messages past the new bound — each a
    /// queue overflow, its buffer returned to the pool — and store the
    /// bound, so the queue respects it at every moment.
    pub fn set_queue(&mut self, focus: usize, size: usize)
        requires
            old(self).wf(),
            focus < old(self).routers@.len(),
            old(self).holding() >= 0,
        ensures
            final(self).wf(),
            final(self).holding() == old(self).holding(),
            final(self).pool.spec_allocated() == old(self).pool.spec_allocated(),
            final(self).routers@.len() == old(self).routers@.len(),
            forall|k: int|
                0 <= k < old(self).routers@.len() && k != focus ==> final(self).routers@[k] == old(self).routers@[k],
            final(self).routers@[focus as int].addr == old(self).routers@[focus as int].addr,
            final(self).routers@[focus as int].outers == old(self).routers@[focus as int].outers,
            final(self).routers@[focus as int].inbox == old(self).routers@[focus as int].inbox,
            final(self).routers@[focus as int].routes == old(self).routers@[focus as int].routes,
            final(self).routers@[focus as int].queue_size == size,
            final(self).routers@[focus as int].queue@ == old(self).routers@[focus as int].queue@.take(
                if old(self).routers@[focus as int].queue@.len() <= size {
                    old(self).routers@[focus as int].queue@.len() as int
                } else {
                    size as int
                },
            ),
            final(self).counters == spec_drop_tail(
                old(self).routers@[focus as int].queue@,
                size as nat,
                old(self).counters,
            ),
    {
        let ghost rs0 = self.routers@;
        let ghost q0 = rs0[focus as int].queue@;
        let ghost c0 = self.counters;
        while self.routers[focus].queue.len() > size
            invariant
                self.wf(),
                self.pool.spec_allocated() == old(self).pool.spec_allocated(),
                self.holding() == old(self).holding(),
                self.routers@.len() == rs0.len(),
                forall|k: int| 0 <= k < rs0.len() && k != focus ==> self.routers@[k] == rs0[k],
                self.routers@[focus as int].addr == rs0[focus as int].addr,
                self.routers@[focus as int].outers == rs0[focus as int].outers,
                self.routers@[focus as int].inbox == rs0[focus as int].inbox,
                self.routers@[focus as int].routes == rs0[focus as int].routes,
                self.routers@[focus as int].queue_size == rs0[focus as int].queue_size,
                self.routers@[focus as int].queue@.len() <= q0.len(),
                self.routers@[focus as int].queue@.len() >= (if q0.len() <= size {
                    q0.len() as int
                } else {
                    size as int
                }),
                self.routers@[focus as int].queue@ == q0.take(
                    self.routers@[focus as int].queue@.len() as int,
                ),
                spec_drop_tail(self.routers@[focus as int].queue@, size as nat, self.counters)
                    == spec_drop_tail(q0, size as nat, c0),
            decreases self.routers@[focus as int].queue@.len(),
        {
            let ghost rs_it = self.routers@;
            let ghost q_it = rs_it[focus as int].queue@;
            let m = match self.routers[focus].queue.pop() {
                Some(m) => m,
                None => {
                    proof {
                        assert(false);
                    }
                    return ;
                },
            };
            proof {
                assert(m == q_it.last());
                assert(m.wf()) by {
                    assert(rs_it[focus as int].wf());
                    assert(q_it[q_it.len() - 1].wf());
                }
                let rf = self.routers@[focus as int];
                assert(self.routers@ =~= rs_it.update(focus as int, rf));
                lemma_transit_sum_update(rs_it, focus as int, rf);
                lemma_transit_sum_nonneg(self.routers@);
                lemma_transit_sum_bounds(rs_it, focus as int);
                assert(rf.queue@ == q_it.drop_last());
                assert(q_it == q0.take(q_it.len() as int));
                assert(q_it.len() <= q0.len());
                assert(q_it.drop_last() =~= q0.take(q_it.len() - 1));
                assert forall|a: int, b: int|
                    0 <= a < b < self.routers@.len() implies (#[trigger] self.routers@[a]).addr
                    != (#[trigger] self.routers@[b]).addr by {
                    assert(self.routers@[a].addr == rs_it[a].addr);
                    assert(self.routers@[b].addr == rs_it[b].addr);
                }
                assert forall|a: int, k: int|
                    0 <= a < self.routers@.len() && 0 <= k
                        < self.routers@[a].outers@.len() implies has_router(
                    self.routers@,
                    (#[trigger] self.routers@[a].outers@[k]).to,
                ) by {
                    assert(self.routers@[a].outers == rs_it[a].outers);
                    assert(has_router(rs_it, rs_it[a].outers@[k].to));
                    lemma_find_router_update(rs_it, focus as int, rf, rs_it[a].outers@[k].to);
                }
            }
            drop_packet(DropReason::QueueOverflow, m.len, m.buffer, &mut self.counters, &mut self.pool);
        }
        let ghost rs_end = self.routers@;
        self.routers[focus].queue_size = size;
        proof {
            let rf = self.routers@[focus as int];
            assert(self.routers@ =~= rs_end.update(focus as int, rf));
            lemma_transit_sum_update(rs_end, focus as int, rf);
            assert(rf.wf()) by {
                assert(rs_end[focus as int].wf());
            }
            assert forall|a: int, b: int|
                0 <= a < b < self.routers@.len() implies (#[trigger] self.routers@[a]).addr != (
            #[trigger] self.routers@[b]).addr by {
                assert(self.routers@[a].addr == rs_end[a].addr);
                assert(self.routers@[b].addr == rs_end[b].addr);
            }
            assert forall|a: int, k: int|
                0 <= a < self.routers@.len() && 0 <= k
                    < self.routers@[a].outers@.len() implies has_router(
                self.routers@,
                (#[trigger] self.routers@[a].outers@[k]).to,
            ) by {
                assert(self.routers@[a].outers == rs_end[a].outers);
                assert(has_router(rs_end, rs_end[a].outers@[k].to));
                lemma_find_router_update(rs_end, focus as int, rf, rs_end[a].outers@[k].to);
            }
        }
    }
}

/// Parser-local state while one controller datagram is handled: the
/// focused router and the pending bandwidth value.
#[derive(Clone, Copy, PartialEq, Eq, Structural, Debug)]
pub struct ParseState {
    /// The router the last `ROUTER` line focused, as a registry index.
    pub focus: Option<usize>,
    /// The bandwidth the last `VALUE` line set; `None` when unset.
    pub value: Option<usize>,
}

/// The focus, if set, points into the registry.
pub open spec fn state_ok(st: ParseState, rs_len: nat) -> bool {
    st.focus matches Some(f) ==> f < rs_len
}

/// A router as the controller sees it: identity, links, queue bound and
/// queue.  Inboxes and routing tables are invisible to control traffic.
pub struct CtrlRouter {
    /// The router's IPv4 identity.
    pub addr: Ipv4,
    /// Its outgoing links.
    pub outers: Seq<Link>,
    /// Its queue bound.
    pub queue_size: usize,
    /// Its queued messages.
    pub queue: Seq<Message>,
}

/// Everything a controller datagram can touch: the routers as the
/// controller sees them, and the counters its drops move.
pub struct CtrlState {
    /// The registry, in creation order.
    pub routers: Seq<CtrlRouter>,
    /// The global counters.
    pub counters: Counters,
}

/// One router's controller view.
pub open spec fn ctrl_router(r: Router) -> CtrlRouter {
    CtrlRouter { addr: r.addr, outers: r.outers@, queue_size: r.queue_size, queue: r.queue@ }
}

/// The registry's controller view.
pub open spec fn ctrl_routers(rs: Seq<Router>) -> Seq<CtrlRouter> {
    rs.map_values(|r: Router| ctrl_router(r))
}

/// The emulator's controller view.
pub open spec fn ctrl_view(em: Emulator) -> CtrlState {
    CtrlState { routers: ctrl_routers(em.routers@), counters: em.counters }
}

/// The index of the first viewed router with address `ip`, or -1.
pub open spec fn ctrl_find(rs: Seq<CtrlRouter>, ip: Ipv4) -> int
    decreases rs.len(),
{
    if rs.len() == 0 {
        -1
    } else if rs[0].addr == ip {
        0
    } else {
        let r = ctrl_find(rs.drop_first(), ip);
        if r < 0 {
            -1
        } else {
            r + 1
        }
    }
}

/// Lookup in the controller view agrees with lookup in the registry.
pub proof fn lemma_ctrl_find(rs: Seq<Router>, ip: Ipv4)
    ensures
        ctrl_find(ctrl_routers(rs), ip) == find_router_index(rs, ip),
    decreases rs.len(),
{
    let m = ctrl_routers(rs);
    if rs.len() > 0 {
        assert(m[0] == ctrl_router(rs[0]));
        if rs[0].addr != ip {
            assert(m.drop_first() =~= ctrl_routers(rs.drop_first()));
            lemma_ctrl_find(rs.drop_first(), ip);
        }
    }
}

/// A fresh router's controller view.
pub open spec fn ctrl_fresh(ip: Ipv4) -> CtrlRouter {
    CtrlRouter {
        addr: ip,
        outers: Seq::empty(),
        queue_size: crate::DEFAULT_QUEUE_SIZE,
        queue: Seq::empty(),
    }
}

/// Look the address up in the view; when it is new, a fresh router
/// joins at the end.
pub open spec fn ctrl_get_or_create(rs: Seq<CtrlRouter>, ip: Ipv4) -> (Seq<CtrlRouter>, int) {
    let i = ctrl_find(rs, ip);
    if i >= 0 {
        (rs, i)
    } else {
        (rs.push(ctrl_fresh(ip)), rs.len() as int)
    }
}

/// What one controller command does to the registry view and the parser
/// state: exactly the effect `apply_command` has on the emulator.
pub open spec fn spec_apply_command(s: CtrlState, st: ParseState, cmd: Command) -> (
    CtrlState,
    ParseState,
) {
    match cmd {
        Command::Router(ip) => {
            let (rs2, idx) = ctrl_get_or_create(s.routers, ip);
            (
                CtrlState { routers: rs2, counters: s.counters },
                ParseState { focus: Some(idx as usize), value: st.value },
            )
        },
        Command::RouterInvalid => (s, ParseState { focus: None, value: st.value }),
        Command::Value(v) => (s, ParseState { focus: st.focus, value: Some(v) }),
        Command::ValueInvalid => (s, ParseState { focus: st.focus, value: None }),
        Command::Link(ip) => match (st.focus, st.value) {
            (Some(f), Some(bw)) => if f < s.routers.len() {
                let (rs1, _) = ctrl_get_or_create(s.routers, ip);
                let rf = rs1[f as int];
                (
                    CtrlState {
                        routers: rs1.update(
                            f as int,
                            CtrlRouter {
                                outers: crate::routes::spec_set_link(rf.outers, ip, bw),
                                ..rf
                            },
                        ),
                        counters: s.counters,
                    },
                    st,
                )
            } else {
                (s, st)
            },
            _ => (s, st),
        },
        Command::LinkInvalid => (s, st),
        Command::Queue(v) => match st.focus {
            Some(f) => if f < s.routers.len() {
                let rf = s.routers[f as int];
                let keep = if rf.queue.len() <= v {
                    rf.queue.len() as int
                } else {
                    v as int
                };
                (
                    CtrlState {
                        routers: s.routers.update(
                            f as int,
                            CtrlRouter { queue_size: v, queue: rf.queue.take(keep), ..rf },
                        ),
                        counters: spec_drop_tail(rf.queue, v as nat, s.counters),
                    },
                    st,
                )
            } else {
                (s, st)
            },
            None => (s, st),
        },
        Command::QueueInvalid => (s, st),
        Command::Unknown => (s, st),
    }
}

/// A whole datagram's effect: its lines' commands applied in textual
/// order, the focus and pending value carried from line to line.
pub open spec fn spec_apply_lines(
    s: CtrlState,
    st: ParseState,
    lines: Seq<Seq<u8>>,
) -> CtrlState
    decreases lines.len(),
{
    if lines.len() == 0 {
        s
    } else {
        let (s2, st2) = spec_apply_command(s, st, crate::parser::spec_parse_line(lines[0]));
        spec_apply_lines(s2, st2, lines.drop_first())
    }
}

impl Emulator {
    /// Apply one controller command to the emulator and the parser
    /// state: `ROUTER` focuses (creating if new), `VALUE` sets the
    /// pending bandwidth, `LINK` binds a link from the focused router
    /// at that bandwidth, `QUEUE` bounds the focused router's queue,
    /// and invalid or unknown lines change at most the parser state.
    pub fn apply_command(&mut self, st: ParseState, cmd: Command) -> (st2: ParseState)
        requires
            old(self).wf(),
            old(self).holding() >= 0,
            state_ok(st, old(self).routers@.len()),
        ensures
            final(self).wf(),
            final(self).holding() == old(self).holding(),
            final(self).pool.spec_allocated() == old(self).pool.spec_allocated(),
            state_ok(st2, final(self).routers@.len()),
            final(self).routers@.len() >= old(self).routers@.len(),
            forall|k: int|
                0 <= k < old(self).routers@.len() ==> {
                    let rk = #[trigger] final(self).routers@[k];
                    &&& rk.addr == old(self).routers@[k].addr
                    &&& rk.inbox == old(self).routers@[k].inbox
                    &&& rk.routes == old(self).routers@[k].routes
                },
            cmd matches Command::Router(ip) ==> {
                &&& st2.value == st.value
                &&& st2.focus matches Some(f) && f < final(self).routers@.len() && final(self).routers@[f as int].addr == ip
                &&& has_router(final(self).routers@, ip)
                &&& forall|k: int|
                    0 <= k < old(self).routers@.len() ==> final(self).routers@[k] == old(self).routers@[k]
            },
            cmd is RouterInvalid ==> st2 == (ParseState { focus: None, value: st.value })
                && final(self).routers == old(self).routers && final(self).counters == old(self).counters,
            forall|v: usize|
                cmd == Command::Value(v) ==> st2 == (ParseState {
                    focus: st.focus,
                    value: Some(v),
                }) && final(self).routers == old(self).routers && final(self).counters == old(self).counters,
            cmd is ValueInvalid ==> st2 == (ParseState { focus: st.focus, value: None })
                && final(self).routers == old(self).routers && final(self).counters == old(self).counters,
            cmd matches Command::Link(ip) ==> st2 == st && (match (st.focus, st.value) {
                (Some(f), Some(bw)) => {
                    &&& final(self).routers@[f as int].outers@ == crate::routes::spec_set_link(
                        old(self).routers@[f as int].outers@,
                        ip,
                        bw,
                    )
                    &&& has_router(final(self).routers@, ip)
                    &&& final(self).counters == old(self).counters
                    &&& forall|k: int|
                        0 <= k < old(self).routers@.len() && k != f ==> final(self).routers@[k]
                            == old(self).routers@[k]
                },
                _ => final(self).routers == old(self).routers && final(self).counters == old(self).counters,
            }),
            cmd is LinkInvalid ==> st2 == st && final(self).routers == old(self).routers && final(self).counters == old(self).counters,
            forall|v: usize|
                cmd == Command::Queue(v) ==> st2 == st && (match st.focus {
                    Some(f) => {
                        &&& final(self).routers@[f as int].queue_size == v
                        &&& final(self).routers@[f as int].queue@ == old(self).routers@[f as int].queue@.take(
                            if old(self).routers@[f as int].queue@.len() <= v {
                                old(self).routers@[f as int].queue@.len() as int
                            } else {
                                v as int
                            },
                        )
                        &&& final(self).counters == spec_drop_tail(
                            old(self).routers@[f as int].queue@,
                            v as nat,
                            old(self).counters,
                        )
                        &&& forall|k: int|
                            0 <= k < old(self).routers@.len() && k != f ==> final(self).routers@[k]
                                == old(self).routers@[k]
                    },
                    None => final(self).routers == old(self).routers && final(self).counters
                        == old(self).counters,
                }),
            cmd is QueueInvalid || cmd is Unknown ==> st2 == st && final(self).routers == old(self).routers && final(self).counters == old(self).counters,
            ctrl_view(*final(self)) == spec_apply_command(ctrl_view(*old(self)), st, cmd).0,
            st2 == spec_apply_command(ctrl_view(*old(self)), st, cmd).1,
    {
        match cmd {
            Command::Router(ip) => {
                let ghost em0 = *self;
                let (idx, created) = self.get_or_create(ip);
                proof {
                    lemma_ctrl_find(em0.routers@, ip);
                    lemma_find_router_index(em0.routers@, ip);
                    if created {
                        assert(ctrl_routers(self.routers@) =~= ctrl_routers(em0.routers@).push(
                            ctrl_fresh(ip),
                        )) by {
                            assert forall|k: int|
                                0 <= k < self.routers@.len() implies ctrl_routers(self.routers@)[k]
                                == ctrl_routers(em0.routers@).push(ctrl_fresh(ip))[k] by {
                                if k < em0.routers@.len() {
                                    assert(self.routers@[k] == em0.routers@[k]);
                                } else {
                                    let nr = self.routers@[k];
                                    assert(nr.outers@ =~= Seq::<Link>::empty());
                                    assert(nr.queue@ =~= Seq::<Message>::empty());
                                }
                            }
                        }
                    }
                }
                ParseState { focus: Some(idx), value: st.value }
            },
            Command::RouterInvalid => ParseState { focus: None, value: st.value },
            Command::Value(v) => ParseState { focus: st.focus, value: Some(v) },
            Command::ValueInvalid => ParseState { focus: st.focus, value: None },
            Command::Link(ip) => {
                match (st.focus, st.value) {
                    (Some(f), Some(bw)) => {
                        let ghost em0 = *self;
                        let created = self.set_link(f, ip, bw);
                        proof {
                            lemma_ctrl_find(em0.routers@, ip);
                            lemma_find_router_index(em0.routers@, ip);
                            let v0r = ctrl_routers(em0.routers@);
                            let rs1 = ctrl_get_or_create(v0r, ip).0;
                            let rf = rs1[f as int];
                            let expected = rs1.update(
                                f as int,
                                CtrlRouter {
                                    outers: crate::routes::spec_set_link(rf.outers, ip, bw),
                                    ..rf
                                },
                            );
                            assert(rs1[f as int] == v0r[f as int]);
                            assert(ctrl_routers(self.routers@) =~= expected) by {
                                assert forall|k: int|
                                    0 <= k < self.routers@.len() implies ctrl_routers(
                                    self.routers@,
                                )[k] == expected[k] by {
                                    if k == f {
                                        assert(v0r[f as int] == ctrl_router(
                                            em0.routers@[f as int],
                                        ));
                                    } else if k < em0.routers@.len() {
                                        assert(self.routers@[k] == em0.routers@[k]);
                                    } else {
                                        let nr = self.routers@[k];
                                        assert(nr == self.routers@.last());
                                        assert(nr.outers@ =~= Seq::<Link>::empty());
                                        assert(nr.queue@ =~= Seq::<Message>::empty());
                                        assert(expected[k] == ctrl_fresh(ip));
                                    }
                                }
                            }
                        }
                    },
                    _ => {},
                }
                st
            },
            Command::LinkInvalid => st,
            Command::Queue(v) => {
                match st.focus {
                    Some(f) => {
                        let ghost em0 = *self;
                        self.set_queue(f, v);
                        proof {
                            let v0r = ctrl_routers(em0.routers@);
                            let rf = v0r[f as int];
                            let keep = if rf.queue.len() <= v {
                                rf.queue.len() as int
                            } else {
                                v as int
                            };
                            let expected = v0r.update(
                                f as int,
                                CtrlRouter { queue_size: v, queue: rf.queue.take(keep), ..rf },
                            );
                            assert(rf == ctrl_router(em0.routers@[f as int]));
                            assert(ctrl_routers(self.routers@) =~= expected) by {
                                assert forall|k: int|
                                    0 <= k < self.routers@.len() implies ctrl_routers(
                                    self.routers@,
                                )[k] == expected[k] by {
                                    if k != f {
                                        assert(self.routers@[k] == em0.routers@[k]);
                                    }
                                }
                            }
                        }
                    },
                    None => {},
                }
                st
            },
            Command::QueueInvalid => st,
            Command::Unknown => st,
        }
    }

    /// Handle one controller datagram: split it into lines — newline
    /// separated, a trailing carriage return stripped — parse each line
    /// and apply it in textual order, carrying the focus and pending
    /// value across lines: the emulator's controller view ends as the
    /// fold of the datagram's commands over the initial view.
    /// Registered routers are never removed, and no command touches an
    /// inbox, a routing table or a buffer held outside.
    pub fn handle_control(&mut self, data: &[u8])
        requires
            old(self).wf(),
            old(self).holding() >= 0,
        ensures
            final(self).wf(),
            final(self).holding() == old(self).holding(),
            final(self).pool.spec_allocated() == old(self).pool.spec_allocated(),
            final(self).routers@.len() >= old(self).routers@.len(),
            forall|k: int|
                0 <= k < old(self).routers@.len() ==> {
                    let rk = #[trigger] final(self).routers@[k];
                    &&& rk.addr == old(self).routers@[k].addr
                    &&& rk.inbox == old(self).routers@[k].inbox
                    &&& rk.routes == old(self).routers@[k].routes
                },
            ctrl_view(*final(self)) == spec_apply_lines(
                ctrl_view(*old(self)),
                ParseState { focus: None, value: None },
                crate::parser::spec_lines(data@),
            ),
    {
        let n = data.len();
        let mut st = ParseState { focus: None, value: None };
        let mut start: usize = 0;
        let mut k: usize = 0;
        proof {
            assert(data@.skip(0) =~= data@);
        }
        while k < n
            invariant
                start <= k <= n,
                n == data@.len(),
                self.wf(),
                self.holding() == old(self).holding(),
                self.pool.spec_allocated() == old(self).pool.spec_allocated(),
                state_ok(st, self.routers@.len()),
                self.routers@.len() >= old(self).routers@.len(),
                forall|j: int|
                    0 <= j < old(self).routers@.len() ==> {
                        let rj = #[trigger] self.routers@[j];
                        &&& rj.addr == old(self).routers@[j].addr
                        &&& rj.inbox == old(self).routers@[j].inbox
                        &&& rj.routes == old(self).routers@[j].routes
                    },
                forall|x: int| start <= x < k ==> data@[x] != 10,
                spec_apply_lines(ctrl_view(*self), st, crate::parser::spec_lines(data@.skip(start as int)))
                    == spec_apply_lines(
                    ctrl_view(*old(self)),
                    ParseState { focus: None, value: None },
                    crate::parser::spec_lines(data@),
                ),
            decreases n - k,
        {
            if data[k] == 10 {
                let line = subslice(data, start, k);
                proof {
                    let rem = data@.skip(start as int);
                    crate::parser::lemma_find_byte(rem, 10);
                    assert(rem[k - start as int] == 10);
                    assert(crate::parser::find_byte(rem, 10) == k - start as int) by {
                        assert forall|x: int| 0 <= x < k - start as int implies rem[x] != 10 by {
                            assert(rem[x] == data@[start + x]);
                        }
                        if crate::parser::find_byte(rem, 10) < k - start as int {
                            assert(rem[crate::parser::find_byte(rem, 10)] == 10);
                        }
                    }
                    assert(rem.take(k - start as int) =~= line@);
                    assert(rem.skip(k - start as int + 1) =~= data@.skip(k + 1));
                    let lines = crate::parser::spec_lines(rem);
                    assert(lines == seq![crate::parser::spec_strip_cr(line@)]
                        + crate::parser::spec_lines(data@.skip(k + 1)));
                    assert(lines[0] == crate::parser::spec_strip_cr(line@));
                    assert(lines.drop_first() =~= crate::parser::spec_lines(data@.skip(k + 1)));
                }
                st = self.handle_line(st, line);
                start = k + 1;
            }
            k = k + 1;
        }
        if start < n {
            let line = subslice(data, start, n);
            let ghost v_before = ctrl_view(*self);
            let ghost st_before = st;
            proof {
                let rem = data@.skip(start as int);
                crate::parser::lemma_find_byte(rem, 10);
                assert(crate::parser::find_byte(rem, 10) < 0) by {
                    if crate::parser::find_byte(rem, 10) >= 0 {
                        let w = crate::parser::find_byte(rem, 10);
                        assert(rem[w] == data@[start + w]);
                    }
                }
                assert(rem =~= line@);
            }
            let st_last = self.handle_line(st, line);
            proof {
                let rem = data@.skip(start as int);
                let lines = crate::parser::spec_lines(rem);
                assert(lines == seq![crate::parser::spec_strip_cr(line@)]);
                assert(lines[0] == crate::parser::spec_strip_cr(line@));
                assert(lines.drop_first() =~= Seq::<Seq<u8>>::empty());
                let cmd = crate::parser::spec_parse_line(crate::parser::spec_strip_cr(line@));
                assert(spec_apply_lines(v_before, st_before, lines) == spec_apply_lines(
                    spec_apply_command(v_before, st_before, cmd).0,
                    spec_apply_command(v_before, st_before, cmd).1,
                    lines.drop_first(),
                ));
                assert(spec_apply_lines(ctrl_view(*self), st_last, Seq::<Seq<u8>>::empty())
                    == ctrl_view(*self));
            }
        } else {
            proof {
                assert(data@.skip(start as int) =~= Seq::<u8>::empty());
                crate::parser::lemma_find_byte(Seq::<u8>::empty(), 10);
                assert(crate::parser::spec_lines(Seq::<u8>::empty()) == Seq::<Seq<u8>>::empty());
                assert(spec_apply_lines(
                    ctrl_view(*self),
                    st,
                    Seq::<Seq<u8>>::empty(),
                ) == ctrl_view(*self));
            }
        }
    }

    /// Parse and apply one line, with its trailing carriage return
    /// stripped.
    fn handle_line(&mut self, st: ParseState, line: &[u8]) -> (st2: ParseState)
        requires
            old(self).wf(),
            old(self).holding() >= 0,
            state_ok(st, old(self).routers@.len()),
        ensures
            final(self).wf(),
            final(self).holding() == old(self).holding(),
            final(self).pool.spec_allocated() == old(self).pool.spec_allocated(),
            state_ok(st2, final(self).routers@.len()),
            final(self).routers@.len() >= old(self).routers@.len(),
            forall|k: int|
                0 <= k < old(self).routers@.len() ==> {
                    let rk = #[trigger] final(self).routers@[k];
                    &&& rk.addr == old(self).routers@[k].addr
                    &&& rk.inbox == old(self).routers@[k].inbox
                    &&& rk.routes == old(self).routers@[k].routes
                },
            ({
                let cmd = crate::parser::spec_parse_line(crate::parser::spec_strip_cr(line@));
                &&& ctrl_view(*final(self)) == spec_apply_command(
                    ctrl_view(*old(self)),
                    st,
                    cmd,
                ).0
                &&& st2 == spec_apply_command(ctrl_view(*old(self)), st, cmd).1
            }),
    {
        let n = line.len();
        let stripped = if n > 0 && line[n - 1] == 13 {
            let s2 = subslice(line, 0, n - 1);
            proof {
                assert(s2@ =~= line@.drop_last());
            }
            s2
        } else {
            line
        };
        proof {
            assert(stripped@ == crate::parser::spec_strip_cr(line@));
        }
        let cmd = crate::parser::parse_line(stripped);
        self.apply_command(st, cmd)
    }
}

/// The bytes of a slice between two positions.
pub fn subslice(s: &[u8], start: usize, end: usize) -> (r: &[u8])
    requires
        start <= end <= s@.len(),
    ensures
        r@ == s@.subrange(start as int, end as int),
{
    let (head, _) = s.split_at(end);
    let (_, r) = head.split_at(start);
    proof {
        assert(r@ =~= s@.subrange(start as int, end as int));
    }
    r
}

/// A positive-bandwidth link to `h` is in particular a link to `h`.
pub proof fn lemma_pos_link_is_link(s: Seq<Link>, h: Ipv4)
    requires
        has_pos_link(s, h),
    ensures
        has_link(s, h),
{
    let j = choose|j: int| 0 <= j < s.len() && (#[trigger] s[j]).to == h && s[j].bw > 0;
    lemma_find_link_index(s, h);
    if crate::routes::find_link_index(s, h) < 0 {
        assert(s[j].to != h);
    }
}

/// One router's route recomputation, from its links and the other
/// routers' current tables: exactly the two relaxation passes of
/// `spec_recompute`.
pub fn recompute(self_addr: Ipv4, outers: &Vec<Link>, others: &Vec<Router>) -> (t: Vec<
    RouteEntry,
>)
    requires
        addrs_unique(others@),
        forall|k: int| 0 <= k < others@.len() ==> (#[trigger] others@[k]).wf(),
    ensures
        t@ == spec_recompute(self_addr, outers@, registry_tables(others@)),
{
    let ghost reg = registry_tables(others@);
    let mut tbl: Vec<RouteEntry> = Vec::new();
    let n = outers.len();
    proof {
        assert(outers@.skip(0) =~= outers@);
    }
    let mut k: usize = 0;
    while k < n
        invariant
            k <= n,
            pass1(tbl@, outers@.skip(k as int)) == pass1(Seq::empty(), outers@),
        decreases n - k,
    {
        let l = outers[k];
        let ghost t_in = tbl@;
        if l.bw > 0 {
            let c = link_cost(l.bw);
            upsert_route(&mut tbl, l.to, c, l.to);
        }
        proof {
            assert(outers@.skip(k as int)[0] == l);
            assert(tbl@ == pass1_step(t_in, l));
            assert(outers@.skip(k as int).drop_first() =~= outers@.skip(k + 1));
        }
        k = k + 1;
    }
    proof {
        assert(outers@.skip(n as int) =~= Seq::<Link>::empty());
    }
    let ghost t1 = tbl@;
    proof {
        assert(outers@.skip(0) =~= outers@);
    }
    let mut k: usize = 0;
    while k < n
        invariant
            k <= n,
            pass2(tbl@, self_addr, outers@.skip(k as int), reg) == pass2(
                t1,
                self_addr,
                outers@,
                reg,
            ),
        decreases n - k,
    {
        let l = outers[k];
        let ghost t_in = tbl@;
        if l.bw > 0 {
            let lc = link_cost(l.bw);
            proof {
                lemma_registry_tables(others@, l.to);
            }
            match find_router_in(others, l.to) {
                Some(j) => {
                    proof {
                        lemma_find_router_index(others@, l.to);
                    }
                    let ghost ntbl = others@[j as int].routes@;
                    proof {
                        assert(reg.dom().contains(l.to));
                        assert(reg[l.to] == ntbl);
                        assert(ntbl.skip(0) =~= ntbl);
                    }
                    let nn = others[j].routes.len();
                    let mut q: usize = 0;
                    while q < nn
                        invariant
                            q <= nn,
                            j < others@.len(),
                            nn == ntbl.len(),
                            ntbl == others@[j as int].routes@,
                            relax_nbr(tbl@, self_addr, l.to, lc, ntbl.skip(q as int)) == relax_nbr(
                                t_in,
                                self_addr,
                                l.to,
                                lc,
                                ntbl,
                            ),
                        decreases nn - q,
                    {
                        let e = others[j].routes[q];
                        let ghost t_q = tbl@;
                        if e.dst != self_addr {
                            let c = lc.saturating_add(e.cost);
                            proof {
                                assert(c == sat_add64(lc, e.cost));
                            }
                            upsert_route(&mut tbl, e.dst, c, l.to);
                        }
                        proof {
                            assert(ntbl.skip(q as int)[0] == e);
                            assert(tbl@ == relax_step(t_q, self_addr, l.to, lc, e));
                            assert(ntbl.skip(q as int).drop_first() =~= ntbl.skip(q + 1));
                        }
                        q = q + 1;
                    }
                    proof {
                        assert(ntbl.skip(nn as int) =~= Seq::<RouteEntry>::empty());
                        assert(tbl@ == pass2_step(t_in, self_addr, l, reg));
                    }
                },
                None => {
                    proof {
                        assert(!reg.dom().contains(l.to));
                        assert(tbl@ == pass2_step(t_in, self_addr, l, reg));
                    }
                },
            }
        } else {
            proof {
                assert(tbl@ == pass2_step(t_in, self_addr, l, reg));
            }
        }
        proof {
            assert(outers@.skip(k as int)[0] == l);
            assert(outers@.skip(k as int).drop_first() =~= outers@.skip(k + 1));
        }
        k = k + 1;
    }
    proof {
        assert(outers@.skip(n as int) =~= Seq::<Link>::empty());
    }
    tbl
}

/// A fresh vector holding the first `len` bytes of a buffer: the frame
/// to hand to the OS at delivery.
pub fn copy_prefix(b: &Vec<u8>, len: usize) -> (r: Vec<u8>)
    requires
        len <= b@.len(),
    ensures
        r@ == b@.subrange(0, len as int),
{
    let mut r: Vec<u8> = Vec::new();
    let mut k: usize = 0;
    while k < len
        invariant
            k <= len,
            r@ == b@.subrange(0, k as int),
        decreases len - k,
    {
        r.push(b[k]);
        proof {
            assert(r@ =~= b@.subrange(0, k + 1));
        }
        k = k + 1;
    }
    r
}

/// The index of the first router with address `ip` in a router list.
pub fn find_router_in(rs: &Vec<Router>, ip: Ipv4) -> (r: Option<usize>)
    ensures
        r is Some <==> has_router(rs@, ip),
        r is Some ==> r.unwrap() == find_router_index(rs@, ip),
{
    let n = rs.len();
    let mut k: usize = 0;
    while k < n
        invariant
            k <= n,
            find_router_index(rs@, ip) >= 0 ==> find_router_index(rs@, ip) >= k,
            find_router_index(rs@, ip) < 0 ==> forall|j: int| 0 <= j < k ==> (#[trigger] rs@[j]).addr
                != ip,
        decreases n - k,
    {
        proof {
            lemma_find_router_index(rs@, ip);
        }
        if rs[k].addr == ip {
            proof {
                assert(find_router_index(rs@, ip) == k);
            }
            return Some(k);
        }
        k = k + 1;
    }
    proof {
        lemma_find_router_index(rs@, ip);
    }
    None
}

/// The queue bound: in every well-formed emulator state — which every
/// operation of this module preserves — no router's queue is ever
/// longer than its queue bound.
pub proof fn lemma_queue_bound(em: Emulator, i: int)
    requires
        em.wf(),
        0 <= i < em.routers@.len(),
    ensures
        em.routers@[i].queue@.len() <= em.routers@[i].queue_size,
{
}

/// Buffer conservation at quiescence: when nothing outside the routers
/// holds a buffer, the free buffers plus the messages in transit are
/// exactly the buffers ever allocated.
pub proof fn lemma_emulator_conservation(em: Emulator)
    requires
        em.wf(),
        em.holding() == 0,
    ensures
        em.pool.spec_size() + transit_sum(em.routers@) == em.pool.spec_allocated(),
{
}

} // verus!
