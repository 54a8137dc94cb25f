use netemu::addr::Ipv4;
use netemu::parser::{parse_ipv4, parse_line, parse_usize, Command};

#[test]
fn usize_accepts_digits() {
    assert_eq!(parse_usize(b"32"), Some(32));
    assert_eq!(parse_usize(b"0"), Some(0));
    assert_eq!(parse_usize(b"3200"), Some(3200));
    assert_eq!(parse_usize(b"18446744073709551615"), Some(usize::MAX));
}

#[test]
fn usize_rejects_junk() {
    assert_eq!(parse_usize(b""), None);
    assert_eq!(parse_usize(b"12a"), None);
    assert_eq!(parse_usize(b" 5"), None);
    assert_eq!(parse_usize(b"-1"), None);
    assert_eq!(parse_usize(b"18446744073709551616"), None);
    assert_eq!(parse_usize(b"99999999999999999999999"), None);
}

#[test]
fn ipv4_accepts_canonical() {
    assert_eq!(parse_ipv4(b"127.0.0.1"), Some(Ipv4::new(127, 0, 0, 1)));
    assert_eq!(parse_ipv4(b"0.0.0.0"), Some(Ipv4::new(0, 0, 0, 0)));
    assert_eq!(parse_ipv4(b"255.255.255.255"), Some(Ipv4::new(255, 255, 255, 255)));
    assert_eq!(parse_ipv4(b"127.67.117.116"), Some(Ipv4::new(127, 67, 117, 116)));
    assert_eq!(parse_ipv4(b"10.2.33.4"), Some(Ipv4::new(10, 2, 33, 4)));
}

#[test]
fn ipv4_rejects_malformed() {
    assert_eq!(parse_ipv4(b""), None);
    assert_eq!(parse_ipv4(b"1.2.3"), None);
    assert_eq!(parse_ipv4(b"1.2.3.4.5"), None);
    assert_eq!(parse_ipv4(b"256.0.0.1"), None);
    assert_eq!(parse_ipv4(b"01.2.3.4"), None);
    assert_eq!(parse_ipv4(b"127.00.0.1"), None);
    assert_eq!(parse_ipv4(b"1..2.3"), None);
    assert_eq!(parse_ipv4(b"a.b.c.d"), None);
    assert_eq!(parse_ipv4(b"1.2.3."), None);
    assert_eq!(parse_ipv4(b".1.2.3"), None);
    assert_eq!(parse_ipv4(b"1234.2.3.4"), None);
}

#[test]
fn line_router() {
    assert_eq!(parse_line(b"ROUTER 127.6.6.6"), Command::Router(Ipv4::new(127, 6, 6, 6)));
    assert_eq!(parse_line(b"ROUTER bogus"), Command::RouterInvalid);
    assert_eq!(parse_line(b"ROUTER 1.2.3"), Command::RouterInvalid);
}

#[test]
fn line_value() {
    assert_eq!(parse_line(b"VALUE 32"), Command::Value(32));
    assert_eq!(parse_line(b"VALUE 3200"), Command::Value(3200));
    assert_eq!(parse_line(b"VALUE 0"), Command::ValueInvalid);
    assert_eq!(parse_line(b"VALUE x"), Command::ValueInvalid);
}

#[test]
fn line_link() {
    assert_eq!(parse_line(b"LINK 127.4.5.5"), Command::Link(Ipv4::new(127, 4, 5, 5)));
    assert_eq!(parse_line(b"LINK nope"), Command::LinkInvalid);
}

#[test]
fn line_queue() {
    assert_eq!(parse_line(b"QUEUE 1"), Command::Queue(1));
    assert_eq!(parse_line(b"QUEUE 500"), Command::Queue(500));
    assert_eq!(parse_line(b"QUEUE  5"), Command::QueueInvalid);
    assert_eq!(parse_line(b"QUEUE x"), Command::QueueInvalid);
}

#[test]
fn line_unknown() {
    assert_eq!(parse_line(b""), Command::Unknown);
    assert_eq!(parse_line(b"HELLO"), Command::Unknown);
    assert_eq!(parse_line(b"ROUTER"), Command::Unknown);
    assert_eq!(parse_line(b"router 1.2.3.4"), Command::Unknown);
}
