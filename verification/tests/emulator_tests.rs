use netemu::addr::{Ipv4, SockAddrV4};
use netemu::codec::{decode_header, encode_source};
use netemu::cost::{delay_ms, link_cost, COST_SCALE};
use netemu::counters::DropReason;
use netemu::emulator::{AcceptOutcome, Emulator, ForwardOutcome};
use netemu::routes::lookup_route;
use netemu::MESSAGE_LENGTH;

fn sock(a: u8, b: u8, c: u8, d: u8, port: u16) -> SockAddrV4 {
    SockAddrV4::new(Ipv4::new(a, b, c, d), port)
}

/// Sum of all messages sitting in inboxes and queues.
fn in_transit(em: &Emulator) -> usize {
    em.routers.iter().map(|r| r.inbox.len() + r.queue.len()).sum()
}

/// Acquire a buffer, fill in a header and payload, and hand the frame
/// to ingress.
fn send_frame(em: &mut Emulator, from: SockAddrV4, to: SockAddrV4, payload: &[u8]) -> AcceptOutcome {
    let mut buf = em.acquire_buffer();
    encode_source(&mut buf, to);
    for (i, &b) in payload.iter().enumerate() {
        buf[6 + i] = b;
    }
    let len = 6 + payload.len();
    em.accept_frame(buf, len, from)
}

#[test]
fn registry_creates_once() {
    let mut em = Emulator::new();
    let a = Ipv4::new(127, 6, 6, 6);
    let (i1, created1) = em.get_or_create(a);
    let (i2, created2) = em.get_or_create(a);
    assert!(created1);
    assert!(!created2);
    assert_eq!(i1, i2);
    assert_eq!(em.routers.len(), 1);
    assert_eq!(em.routers[0].addr, a);
    assert_eq!(em.routers[0].queue_size, netemu::DEFAULT_QUEUE_SIZE);
    assert_eq!(em.find_router(a), Some(0));
    assert_eq!(em.find_router(Ipv4::new(1, 2, 3, 4)), None);
}

#[test]
fn single_router_echo() {
    let mut em = Emulator::new();
    em.handle_control(b"ROUTER 127.6.6.6");
    assert_eq!(em.routers.len(), 1);
    let client = sock(127, 6, 6, 6, 6666);
    let receiver = sock(127, 6, 6, 6, 6665);
    let out = send_frame(&mut em, client, receiver, b"hello");
    assert_eq!(out, AcceptOutcome::Queued { target: receiver });
    match em.forward_step(0) {
        ForwardOutcome::Delivered { to, data } => {
            assert_eq!(to, receiver);
            assert_eq!(data.len(), 11);
            // the receiver sees the previous hop in the header
            assert_eq!(decode_header(&data), client);
            assert_eq!(&data[6..], b"hello");
        },
        other => panic!("expected delivery, got {:?}", other),
    }
    // quiescent again: every buffer is back in the pool
    assert_eq!(in_transit(&em), 0);
    assert_eq!(em.pool.size(), em.pool.allocated());
    assert_eq!(em.counters.loss_packets, 0);
}

#[test]
fn ingress_rejects_oversize() {
    let mut em = Emulator::new();
    em.handle_control(b"ROUTER 127.0.0.1");
    let buf = em.acquire_buffer();
    let out = em.accept_frame(buf, MESSAGE_LENGTH, sock(127, 0, 0, 1, 5));
    assert_eq!(out, AcceptOutcome::Rejected { reason: DropReason::Oversize });
    assert_eq!(em.counters.receive_packets, 1);
    assert_eq!(em.counters.loss_packets, 0);
    assert_eq!(em.pool.size(), em.pool.allocated());
}

#[test]
fn ingress_rejects_short() {
    let mut em = Emulator::new();
    em.handle_control(b"ROUTER 127.0.0.1");
    let buf = em.acquire_buffer();
    let out = em.accept_frame(buf, 5, sock(127, 0, 0, 1, 5));
    assert_eq!(out, AcceptOutcome::Rejected { reason: DropReason::TooShort });
    assert_eq!(em.counters.loss_packets, 0);
    assert_eq!(in_transit(&em), 0);
}

#[test]
fn ingress_rejects_unknown_source() {
    let mut em = Emulator::new();
    em.handle_control(b"ROUTER 127.0.0.1");
    let out = send_frame(&mut em, sock(10, 0, 0, 9, 5), sock(127, 0, 0, 1, 5), b"xx");
    assert_eq!(out, AcceptOutcome::Rejected { reason: DropReason::UnknownSource });
    assert_eq!(em.counters.loss_packets, 0);
    assert_eq!(em.pool.size(), em.pool.allocated());
}

#[test]
fn queue_overflow_drops() {
    let mut em = Emulator::new();
    em.handle_control(b"ROUTER 127.0.0.1\nQUEUE 1");
    assert_eq!(em.routers[0].queue_size, 1);
    let client = sock(127, 0, 0, 1, 40);
    let to = sock(127, 0, 0, 1, 41);
    for _ in 0..5 {
        let out = send_frame(&mut em, client, to, b"0123456789");
        assert!(matches!(out, AcceptOutcome::Queued { .. }));
    }
    // one turn: the drain keeps one message and drops four
    match em.forward_step(0) {
        ForwardOutcome::Delivered { to: t, .. } => assert_eq!(t, to),
        other => panic!("expected delivery, got {:?}", other),
    }
    assert_eq!(em.counters.loss_packets, 4);
    assert_eq!(em.counters.loss_bytes, 4 * 10);
    assert_eq!(em.pool.size(), em.pool.allocated());
}

#[test]
fn no_route_drops() {
    let mut em = Emulator::new();
    em.handle_control(b"ROUTER 127.0.0.1");
    let client = sock(127, 0, 0, 1, 40);
    let stranger = sock(10, 9, 8, 7, 1);
    send_frame(&mut em, client, stranger, b"lost");
    match em.forward_step(0) {
        ForwardOutcome::Dropped { reason } => assert_eq!(reason, DropReason::NoRoute),
        other => panic!("expected drop, got {:?}", other),
    }
    assert_eq!(em.counters.loss_packets, 1);
    assert_eq!(em.counters.loss_bytes, 4);
    assert_eq!(em.pool.size(), em.pool.allocated());
}

#[test]
fn zero_bandwidth_link_drops() {
    let mut em = Emulator::new();
    let a = Ipv4::new(127, 0, 0, 1);
    let b = Ipv4::new(127, 0, 0, 2);
    let (ia, _) = em.get_or_create(a);
    em.set_link(ia, b, 32);
    em.update_routes(ia);
    // the link decays to zero bandwidth after the route was computed
    em.set_link(ia, b, 0);
    send_frame(&mut em, sock(127, 0, 0, 1, 9), sock(127, 0, 0, 2, 9), b"x");
    match em.forward_step(ia) {
        ForwardOutcome::Dropped { reason } => assert_eq!(reason, DropReason::ZeroBandwidth),
        other => panic!("expected drop, got {:?}", other),
    }
    assert_eq!(em.counters.loss_packets, 1);
}

#[test]
fn forwarding_moves_and_paces() {
    let mut em = Emulator::new();
    em.handle_control(b"ROUTER 127.4.4.4\nVALUE 32\nLINK 127.4.5.5");
    let ia = em.find_router(Ipv4::new(127, 4, 4, 4)).unwrap();
    let ib = em.find_router(Ipv4::new(127, 4, 5, 5)).unwrap();
    em.update_routes(ia);
    let payload = [7u8; 100];
    send_frame(&mut em, sock(127, 4, 4, 4, 9), sock(127, 4, 5, 5, 9), &payload);
    let (hop, message) = match em.forward_step(ia) {
        ForwardOutcome::Forwarded { hop, delay, message } => {
            assert_eq!(hop, Ipv4::new(127, 4, 5, 5));
            // a 106-byte frame over 32 bits/ms: (106 + 2) * 8 / 32
            assert_eq!(delay, 27);
            assert_eq!(delay, delay_ms(106, 32));
            (hop, message)
        },
        other => panic!("expected forward, got {:?}", other),
    };
    // the message is withheld from the network while the caller paces
    assert_eq!(em.routers[ib].inbox.len(), 0);
    assert_eq!(in_transit(&em), 0);
    assert_eq!(em.pool.size() + 1, em.pool.allocated());
    em.deliver_to(hop, message);
    assert_eq!(em.routers[ib].inbox.len(), 1);
    assert_eq!(in_transit(&em), 1);
    // delivery at the far end
    match em.forward_step(ib) {
        ForwardOutcome::Delivered { to, data } => {
            assert_eq!(to, sock(127, 4, 5, 5, 9));
            assert_eq!(&data[6..], &payload);
        },
        other => panic!("expected delivery, got {:?}", other),
    }
    assert_eq!(em.pool.size(), em.pool.allocated());
}

#[test]
fn pacing_past_update_period_drops() {
    let mut em = Emulator::new();
    let a = Ipv4::new(127, 0, 0, 1);
    let b = Ipv4::new(127, 0, 0, 2);
    let (ia, _) = em.get_or_create(a);
    // bandwidth 1 bit/ms: a 2500-byte frame would take over 20 seconds
    em.set_link(ia, b, 1);
    em.update_routes(ia);
    send_frame(&mut em, sock(127, 0, 0, 1, 9), sock(127, 0, 0, 2, 9), &[0u8; 2493]);
    match em.forward_step(ia) {
        ForwardOutcome::Dropped { reason } => assert_eq!(reason, DropReason::DelayTooLong),
        other => panic!("expected drop, got {:?}", other),
    }
}

#[test]
fn idle_router_does_nothing() {
    let mut em = Emulator::new();
    em.handle_control(b"ROUTER 127.0.0.1");
    match em.forward_step(0) {
        ForwardOutcome::Idle => {},
        other => panic!("expected idle, got {:?}", other),
    }
}

#[test]
fn set_queue_truncates() {
    let mut em = Emulator::new();
    em.handle_control(b"ROUTER 127.0.0.1");
    let client = sock(127, 0, 0, 1, 40);
    let to = sock(127, 0, 0, 1, 41);
    for _ in 0..3 {
        send_frame(&mut em, client, to, b"0123456789");
    }
    // move the three messages into the queue without forwarding any:
    // bound 3 admits them, then the bound shrinks to 1
    em.handle_control(b"ROUTER 127.0.0.1\nQUEUE 3");
    em.routers[0].drain_inbox(&mut em.counters, &mut em.pool);
    assert_eq!(em.routers[0].queue.len(), 3);
    em.handle_control(b"ROUTER 127.0.0.1\nQUEUE 1");
    assert_eq!(em.routers[0].queue.len(), 1);
    assert_eq!(em.routers[0].queue_size, 1);
    assert_eq!(em.counters.loss_packets, 2);
    assert_eq!(em.pool.size() + in_transit(&em), em.pool.allocated());
}

#[test]
fn chain_converges_in_three_ticks() {
    let mut em = Emulator::new();
    em.handle_control(
        b"ROUTER 127.0.0.1\nVALUE 32\nLINK 127.0.0.2\nROUTER 127.0.0.2\nVALUE 32\nLINK 127.0.0.1\nVALUE 32\nLINK 127.0.0.3\nROUTER 127.0.0.3\nVALUE 32\nLINK 127.0.0.2\nVALUE 32\nLINK 127.0.0.4\nROUTER 127.0.0.4\nVALUE 32\nLINK 127.0.0.3",
    );
    assert_eq!(em.routers.len(), 4);
    let a = Ipv4::new(127, 0, 0, 1);
    let b = Ipv4::new(127, 0, 0, 2);
    let d = Ipv4::new(127, 0, 0, 4);
    let ia = em.find_router(a).unwrap();
    // three update ticks over the whole registry
    for _ in 0..3 {
        for i in 0..em.routers.len() {
            em.update_routes(i);
        }
    }
    let entry = lookup_route(&em.routers[ia].routes, d).expect("route to the chain's end");
    assert_eq!(entry.hop, b);
    assert_eq!(entry.cost, 3 * (COST_SCALE / 32));
    assert_eq!(entry.cost, 3 * link_cost(32));
}

#[test]
fn route_costs_never_increase_over_ticks() {
    let mut em = Emulator::new();
    em.handle_control(
        b"ROUTER 127.0.0.1\nVALUE 32\nLINK 127.0.0.2\nROUTER 127.0.0.2\nVALUE 32\nLINK 127.0.0.1\nVALUE 32\nLINK 127.0.0.3\nROUTER 127.0.0.3\nVALUE 32\nLINK 127.0.0.2",
    );
    let mut previous: Vec<Vec<(Ipv4, u64)>> = vec![Vec::new(); em.routers.len()];
    for _ in 0..5 {
        for i in 0..em.routers.len() {
            em.update_routes(i);
        }
        for (i, r) in em.routers.iter().enumerate() {
            // every destination reached before is still reached, at
            // most as expensively
            for &(dst, cost) in &previous[i] {
                let e = lookup_route(&r.routes, dst).expect("route kept");
                assert!(e.cost <= cost);
            }
            previous[i] = r.routes.iter().map(|e| (e.dst, e.cost)).collect();
        }
    }
}

#[test]
fn self_link_delivers_home() {
    let mut em = Emulator::new();
    em.handle_control(b"ROUTER 127.0.0.1\nVALUE 32\nLINK 127.0.0.1");
    em.update_routes(0);
    // a destination equal to the router itself is delivered, not looped
    send_frame(&mut em, sock(127, 0, 0, 1, 5), sock(127, 0, 0, 1, 6), b"home");
    match em.forward_step(0) {
        ForwardOutcome::Delivered { to, .. } => assert_eq!(to, sock(127, 0, 0, 1, 6)),
        other => panic!("expected delivery, got {:?}", other),
    }
}

#[test]
fn control_text_with_crlf() {
    let mut em = Emulator::new();
    em.handle_control(b"ROUTER 127.0.0.1\r\nVALUE 32\r\nLINK 127.0.0.2\r\n");
    assert_eq!(em.routers.len(), 2);
    assert_eq!(em.routers[0].outers.len(), 1);
    assert_eq!(em.routers[0].outers[0].to, Ipv4::new(127, 0, 0, 2));
    assert_eq!(em.routers[0].outers[0].bw, 32);
}

#[test]
fn link_needs_focus_and_value() {
    let mut em = Emulator::new();
    em.handle_control(b"LINK 127.0.0.2");
    assert_eq!(em.routers.len(), 0);
    em.handle_control(b"ROUTER 127.0.0.1\nLINK 127.0.0.2");
    assert_eq!(em.routers.len(), 1);
    assert_eq!(em.routers[0].outers.len(), 0);
    em.handle_control(b"ROUTER 127.0.0.1\nVALUE 0\nLINK 127.0.0.2");
    assert_eq!(em.routers[0].outers.len(), 0);
    // an invalid router clears the focus: the link must not bind
    em.handle_control(b"ROUTER 127.0.0.1\nVALUE 32\nROUTER oops\nLINK 127.0.0.2");
    assert_eq!(em.routers[0].outers.len(), 0);
}

#[test]
fn link_updates_bandwidth_in_place() {
    let mut em = Emulator::new();
    em.handle_control(b"ROUTER 127.0.0.1\nVALUE 32\nLINK 127.0.0.2\nVALUE 3200\nLINK 127.0.0.2");
    assert_eq!(em.routers[0].outers.len(), 1);
    assert_eq!(em.routers[0].outers[0].bw, 3200);
}

#[test]
fn wider_bandwidth_shrinks_delay() {
    // the same frame over a hundredfold bandwidth is paced a
    // hundredfold faster
    assert_eq!(delay_ms(106, 32), 27);
    assert_eq!(delay_ms(106, 3200), 0);
    assert_eq!(delay_ms(2500, 32), 625);
    assert_eq!(delay_ms(2500, 3200), 6);
}
