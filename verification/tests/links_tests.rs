use netemu::addr::{Ipv4, SockAddrV4};
use netemu::codec::decode_header;
use netemu::config::ServerConfig;
use netemu::links::{forward_decision, ActiveSet, ForwardError, LinkMap};

fn sock(a: u8, b: u8, c: u8, d: u8, port: u16) -> SockAddrV4 {
    SockAddrV4::new(Ipv4::new(a, b, c, d), port)
}

#[test]
fn link_map_set_and_get() {
    let mut links = LinkMap::new();
    let a = sock(127, 0, 0, 1, 10);
    let b = sock(127, 0, 0, 2, 20);
    assert_eq!(links.get(a, b), None);
    links.set(a, b, 64);
    assert_eq!(links.get(a, b), Some(64));
    // links are directed
    assert_eq!(links.get(b, a), None);
    // a reset replaces in place
    links.set(a, b, 128);
    assert_eq!(links.get(a, b), Some(128));
    assert_eq!(links.entries.len(), 1);
}

#[test]
fn active_set_tracks_services() {
    let mut set = ActiveSet::new();
    let n = sock(127, 0, 0, 1, 9);
    assert!(!set.activate(n));
    assert!(set.activate(n));
    assert!(set.deactivate(n));
    assert!(!set.deactivate(n));
    assert!(!set.activate(n));
}

#[test]
fn forward_needs_header() {
    let links = LinkMap::new();
    let mut buf = vec![1u8, 2, 3];
    let r = forward_decision(&links, sock(127, 0, 0, 1, 9), &mut buf);
    assert_eq!(r, Err(ForwardError::TooShort));
    assert_eq!(buf, vec![1u8, 2, 3]);
}

#[test]
fn forward_needs_link() {
    let links = LinkMap::new();
    let src = sock(127, 0, 0, 1, 9);
    let mut buf = vec![127, 0, 0, 2, 20, 0, 42, 42];
    let r = forward_decision(&links, src, &mut buf);
    assert_eq!(r, Err(ForwardError::NoLink));
    // the header was already rewritten to the source's identity
    assert_eq!(decode_header(&buf), src);
    assert_eq!(&buf[6..], &[42, 42]);
}

#[test]
fn forward_refuses_zero_bandwidth() {
    let mut links = LinkMap::new();
    let src = sock(127, 0, 0, 1, 9);
    let dst = sock(127, 0, 0, 2, 20);
    links.set(src, dst, 0);
    let mut buf = vec![127, 0, 0, 2, 20, 0, 1];
    let r = forward_decision(&links, src, &mut buf);
    assert_eq!(r, Err(ForwardError::ZeroBandwidth));
}

#[test]
fn forward_computes_target_and_delay() {
    let mut links = LinkMap::new();
    let src = sock(127, 0, 0, 1, 9);
    let dst = sock(127, 0, 0, 2, 20);
    links.set(src, dst, 8);
    let mut buf = vec![127, 0, 0, 2, 20, 0, 1, 2, 3, 4];
    let r = forward_decision(&links, src, &mut buf);
    // a 10-byte packet over 8 bits/ms: (10 + 2) * 8 / 8
    assert_eq!(r, Ok((dst, 12)));
    assert_eq!(decode_header(&buf), src);
}

#[test]
fn server_config_addresses() {
    let cfg = ServerConfig::new(
        String::from("127.67.117.116:52736"),
        Some(String::from("127.32.68.101:54528")),
    );
    assert_eq!(cfg.local_addr(), "127.67.117.116:52736");
    assert_eq!(cfg.controller_addr(), Some("127.32.68.101:54528"));
    let bare = ServerConfig::new(String::from("127.0.0.1:1"), None);
    assert_eq!(bare.controller_addr(), None);
}
