use netemu::counters::{drop_packet, Counters, DropReason};
use netemu::pool::Pool;
use netemu::MESSAGE_LENGTH;

#[test]
fn acquire_allocates_when_empty() {
    let mut pool = Pool::new();
    assert_eq!(pool.size(), 0);
    assert_eq!(pool.allocated(), 0);
    let b = pool.acquire();
    assert_eq!(b.len(), MESSAGE_LENGTH);
    assert!(b.iter().all(|&x| x == 0));
    assert_eq!(pool.allocated(), 1);
    assert_eq!(pool.size(), 0);
}

#[test]
fn release_recycles() {
    let mut pool = Pool::new();
    let b = pool.acquire();
    pool.release(b);
    assert_eq!(pool.size(), 1);
    assert_eq!(pool.allocated(), 1);
    let _b2 = pool.acquire();
    assert_eq!(pool.allocated(), 1);
    assert_eq!(pool.size(), 0);
}

#[test]
fn conservation_at_quiescence() {
    let mut pool = Pool::new();
    let b1 = pool.acquire();
    let b2 = pool.acquire();
    let b3 = pool.acquire();
    pool.release(b2);
    pool.release(b1);
    pool.release(b3);
    assert_eq!(pool.size(), pool.allocated());
}

#[test]
fn pool_is_lifo() {
    let mut pool = Pool::new();
    let mut b1 = pool.acquire();
    let b2 = pool.acquire();
    b1[0] = 7;
    pool.release(b2);
    pool.release(b1);
    let again = pool.acquire();
    assert_eq!(again[0], 7);
}

#[test]
fn loss_reasons_count() {
    let mut pool = Pool::new();
    let mut counters = Counters::new();
    for reason in [
        DropReason::QueueOverflow,
        DropReason::NoRoute,
        DropReason::NextHopNotNeighbor,
        DropReason::ZeroBandwidth,
        DropReason::DelayTooLong,
    ] {
        let b = pool.acquire();
        drop_packet(reason, 106, b, &mut counters, &mut pool);
    }
    assert_eq!(counters.loss_packets, 5);
    assert_eq!(counters.loss_bytes, 5 * 100);
    assert_eq!(counters.receive_packets, 0);
    assert_eq!(pool.size(), pool.allocated());
}

#[test]
fn non_loss_reasons_do_not_count() {
    let mut pool = Pool::new();
    let mut counters = Counters::new();
    let b = pool.acquire();
    drop_packet(DropReason::TooShort, 3, b, &mut counters, &mut pool);
    let b = pool.acquire();
    drop_packet(DropReason::UnknownSource, 50, b, &mut counters, &mut pool);
    assert_eq!(counters.loss_packets, 0);
    assert_eq!(counters.loss_bytes, 0);
    assert_eq!(counters.receive_packets, 0);
    assert_eq!(pool.size(), pool.allocated());
}

#[test]
fn oversize_counts_as_received() {
    let mut pool = Pool::new();
    let mut counters = Counters::new();
    let b = pool.acquire();
    drop_packet(DropReason::Oversize, MESSAGE_LENGTH, b, &mut counters, &mut pool);
    assert_eq!(counters.receive_packets, 1);
    assert_eq!(counters.loss_packets, 0);
}
