//! Header views, echo request framing, response decoding, and the
//! correlation token.

use wolo::addr::Addr;
use wolo::buf::Buffer;
use wolo::error::Error;
use wolo::icmp;
use wolo::ip;
use wolo::pinger::{
    build_echo_request, decode_response, finish_recv, read_token, token_bytes, Outcome,
    SeqCounter,
};

#[test]
fn v4_header_round_trip() {
    let wire = [8u8, 0, 0x12, 0x34, 0x56, 0x78, 0x9a, 0xbc];
    let header = icmp::v4::Header::from_array(wire);
    assert_eq!(header.ty.0, icmp::v4::ECHO_REQUEST);
    assert_eq!(header.code, 0);
    assert_eq!(header.checksum(), 0x1234);
    assert_eq!(header.identifier(), 0x5678);
    assert_eq!(header.sequence(), 0x9abc);
    assert_eq!(header.as_bytes(), wire.to_vec());
}

#[test]
fn v4_header_mutators() {
    let mut header = icmp::v4::Header::zeroed();
    header.set_checksum(0xbeef);
    header.set_sequence(0x0102);
    assert_eq!(header.checksum(), 0xbeef);
    assert_eq!(header.sequence(), 0x0102);
    assert_eq!(
        header.as_bytes(),
        vec![0, 0, 0xbe, 0xef, 0, 0, 0x01, 0x02]
    );
}

#[test]
fn v6_header_round_trip() {
    let wire = [129u8, 0, 0xaa, 0xbb, 0, 1, 0, 2];
    let header = icmp::v6::Header::from_array(wire);
    assert_eq!(header.ty.0, icmp::v6::ECHO_REPLY);
    assert_eq!(header.checksum(), 0xaabb);
    assert_eq!(header.identifier(), 1);
    assert_eq!(header.sequence(), 2);
    assert_eq!(header.as_bytes(), wire.to_vec());
}

#[test]
fn ip_header_view() {
    let mut wire = [0u8; 20];
    wire[0] = 0x45;
    wire[9] = 1;
    let header = ip::Header::from_array(wire);
    assert_eq!(header.version(), 4);
    assert_eq!(header.protocol(), ip::PROTOCOL_ICMP as i32);
}

#[test]
fn outcome_is_echo_reply() {
    assert!(Outcome::V4(icmp::v4::Type(icmp::v4::ECHO_REPLY)).is_echo_reply());
    assert!(Outcome::V6(icmp::v6::Type(icmp::v6::ECHO_REPLY)).is_echo_reply());
    assert!(!Outcome::V4(icmp::v4::Type(icmp::v4::UNREACHABLE)).is_echo_reply());
    assert!(!Outcome::V6(icmp::v6::Type(icmp::v6::ECHO_REQUEST)).is_echo_reply());
}

#[test]
fn sequence_counter_wraps() {
    let mut seq = SeqCounter::new();
    assert_eq!(seq.next_seq(), 0);
    assert_eq!(seq.next_seq(), 1);
    let mut seq = SeqCounter::new();
    for _ in 0..0x10000 {
        let _ = seq.next_seq();
    }
    assert_eq!(seq.next_seq(), 0);
}

#[test]
fn echo_request_frame_bytes() {
    let mut buf = Buffer::new();
    let payload = token_bytes(0x0102030405060708);
    build_echo_request(false, 7, &payload, &mut buf);
    let bytes = buf.as_bytes();
    assert_eq!(&bytes[..8], &[8, 0, 0, 0, 0, 0, 0, 7]);
    assert_eq!(&bytes[8..], &payload[..]);

    let mut buf6 = Buffer::new();
    build_echo_request(true, 0x0100, &payload, &mut buf6);
    assert_eq!(buf6.as_bytes()[0], 128);
    assert_eq!(buf6.as_bytes()[6], 1);
}

#[test]
fn token_round_trips_through_buffer() {
    let token = 0xfeed_beef_dead_cafe_u64;
    let mut buf = Buffer::new();
    buf.extend_from_slice(&token_bytes(token));
    assert_eq!(read_token(&mut buf).unwrap(), token);
}

#[test]
fn token_too_short_is_error() {
    let mut buf = Buffer::new();
    buf.extend_from_slice(&[1, 2, 3]);
    assert!(read_token(&mut buf).is_err());
}

#[test]
fn decode_response_reads_header_and_leaves_payload() {
    let mut buf = Buffer::new();
    buf.extend_from_slice(&[0u8, 0, 0xd5, 0xcd, 0, 1, 0, 1, 0x68, 0x69]);
    let source = Addr::V4(0x7f000001);
    let dest = Addr::V4(0x7f000001);
    let r = decode_response(&mut buf, source, dest, 0xd5cd).unwrap();
    assert_eq!(r.outcome, Outcome::V4(icmp::v4::Type(icmp::v4::ECHO_REPLY)));
    assert_eq!(r.checksum, 0xd5cd);
    assert_eq!(r.expected_checksum, 0xd5cd);
    assert_eq!(r.sequence, 1);
    assert_eq!(buf.as_bytes(), vec![0x68, 0x69]);
}

#[test]
fn finish_recv_requires_destination() {
    let mut buf = Buffer::new();
    buf.extend_from_slice(&[0u8; 8]);
    let r = finish_recv(
        &mut buf,
        Addr::V4(1),
        None,
        true,
        None,
        0,
    );
    assert!(matches!(r, Err(Error::RecvMissingDestinationAddress)));
}

#[test]
fn finish_recv_error_queue_requires_outcome() {
    let mut buf = Buffer::new();
    buf.extend_from_slice(&[0u8; 8]);
    let r = finish_recv(&mut buf, Addr::V4(1), Some(Addr::V4(2)), false, None, 0);
    assert!(matches!(r, Err(Error::RecvErrorMissingOutcome)));
}

#[test]
fn finish_recv_error_queue_reports_extended_error() {
    let mut buf = Buffer::new();
    // The kernel echoes the original outgoing echo request back.
    buf.extend_from_slice(&[8u8, 0, 0, 0, 0, 0, 0, 1]);
    let outcome = Outcome::V4(icmp::v4::Type(icmp::v4::UNREACHABLE));
    let r = finish_recv(
        &mut buf,
        Addr::V4(1),
        Some(Addr::V4(2)),
        false,
        Some(outcome),
        icmp::v4::HOST_UNREACHABLE,
    )
    .unwrap();
    assert_eq!(r.outcome, outcome);
    assert_eq!(r.code, icmp::v4::HOST_UNREACHABLE);
    assert_eq!(r.checksum, 0);
    assert_eq!(r.expected_checksum, 0);
    assert_eq!(r.sequence, 0);
}

#[test]
fn finish_recv_readable_computes_expected_checksum() {
    // An uncorrupted reply: the wire checksum equals the recomputed one
    // (words 0x0001, 0x0001 and 0x6869 sum to 0x686b; complement 0x9794).
    let mut buf = Buffer::new();
    buf.extend_from_slice(&[0u8, 0, 0x97, 0x94, 0, 1, 0, 1, 0x68, 0x69]);
    let r = finish_recv(&mut buf, Addr::V4(1), Some(Addr::V4(2)), true, None, 0).unwrap();
    assert_eq!(r.expected_checksum, 0x9794);
    assert_eq!(r.checksum, 0x9794);

    // A corrupted one: the two values disagree.
    let mut buf = Buffer::new();
    buf.extend_from_slice(&[0u8, 0, 0x97, 0x94, 0, 1, 0, 1, 0x68, 0x6a]);
    let r = finish_recv(&mut buf, Addr::V4(1), Some(Addr::V4(2)), true, None, 0).unwrap();
    assert_eq!(r.checksum, 0x9794);
    assert_ne!(r.expected_checksum, 0x9794);
}

#[test]
fn buffer_too_small_for_header() {
    let mut buf = Buffer::new();
    buf.extend_from_slice(&[1, 2, 3]);
    let r = decode_response(&mut buf, Addr::V4(1), Addr::V4(2), 0);
    assert!(matches!(
        r,
        Err(Error::BufferTooSmall { actual: 3, needed: 8 })
    ));
}
