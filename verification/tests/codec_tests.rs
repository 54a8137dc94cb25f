use netemu::addr::{Ipv4, SockAddrV4};
use netemu::codec::{decode_header, encode_source};
use netemu::mysocket::MySocket;

fn addr(a: u8, b: u8, c: u8, d: u8, port: u16) -> SockAddrV4 {
    SockAddrV4::new(Ipv4::new(a, b, c, d), port)
}

#[test]
fn header_round_trip() {
    let mut buf = vec![0u8; 16];
    let a = addr(127, 6, 6, 6, 6666);
    encode_source(&mut buf, a);
    assert_eq!(decode_header(buf.as_slice()), a);
}

#[test]
fn header_round_trip_port_bytes() {
    let mut buf = vec![0u8; 8];
    let a = addr(10, 20, 30, 40, 0xABCD);
    encode_source(&mut buf, a);
    assert_eq!(buf[0], 10);
    assert_eq!(buf[1], 20);
    assert_eq!(buf[2], 30);
    assert_eq!(buf[3], 40);
    assert_eq!(buf[4], 0xCD);
    assert_eq!(buf[5], 0xAB);
    assert_eq!(decode_header(buf.as_slice()), a);
}

#[test]
fn decode_reads_little_endian_port() {
    let buf = [127u8, 0, 0, 1, 0x39, 0x30, 99, 99];
    let a = decode_header(&buf);
    assert_eq!(a.ip, Ipv4::new(127, 0, 0, 1));
    assert_eq!(a.port, 0x3039);
}

#[test]
fn encode_preserves_payload() {
    let mut buf = vec![9u8; 12];
    encode_source(&mut buf, addr(1, 2, 3, 4, 5));
    assert_eq!(&buf[6..], &[9u8; 6]);
}

#[test]
fn frame_encode_prepends_header() {
    let sock = MySocket;
    let frame = sock.encode_frame(addr(127, 0, 0, 2, 10256), b"This is ");
    assert_eq!(frame.len(), 6 + 8);
    assert_eq!(&frame[0..4], &[127, 0, 0, 2]);
    assert_eq!(frame[4], (10256 % 256) as u8);
    assert_eq!(frame[5], (10256 / 256) as u8);
    assert_eq!(&frame[6..], b"This is ");
}

#[test]
fn frame_decode_strips_header() {
    let sock = MySocket;
    let mut frame = sock.encode_frame(addr(127, 0, 0, 2, 10256), b"hello");
    let len = frame.len();
    let r = sock.decode_frame(&mut frame, len);
    let (payload_len, from) = r.expect("frame long enough");
    assert_eq!(payload_len, 5);
    assert_eq!(from, addr(127, 0, 0, 2, 10256));
    assert_eq!(&frame[..payload_len], b"hello");
}

#[test]
fn frame_decode_rejects_short() {
    let sock = MySocket;
    let mut frame = vec![1u8, 2, 3, 4, 5];
    let r = sock.decode_frame(&mut frame, 5);
    assert!(r.is_none());
    assert_eq!(frame, vec![1u8, 2, 3, 4, 5]);
}

#[test]
fn frame_round_trip() {
    let sock = MySocket;
    let a = addr(127, 45, 1, 9, 4242);
    let mut frame = sock.encode_frame(a, b"payload bytes");
    let len = frame.len();
    let (n, from) = sock.decode_frame(&mut frame, len).unwrap();
    assert_eq!(from, a);
    assert_eq!(&frame[..n], b"payload bytes");
}
