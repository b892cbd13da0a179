//! Checksum behaviour: known vectors, padding, and the round trip through
//! an injected checksum.

use wolo::icmp;

/// Fold the end-around carry of a word sum, as a receiver would.
fn fold(mut sum: u64) -> u64 {
    while (sum >> 16) != 0 {
        sum = (sum & 0xFFFF) + (sum >> 16);
    }
    sum
}

#[test]
fn v4_checksum_known_vector() {
    // Words 0x0800, 0x0001, 0x0001 and 0x6869 sum to 0x706b; the
    // complement is 0x8f94.
    let msg = [0x08u8, 0x00, 0x00, 0x00, 0x00, 0x01, 0x00, 0x01, 0x68, 0x69];
    assert_eq!(icmp::v4::checksum(&msg), 0x8f94);
}

#[test]
fn v4_checksum_ignores_checksum_field() {
    let zeroed = [0x08u8, 0x00, 0x00, 0x00, 0x00, 0x01, 0x00, 0x01, 0x68, 0x69];
    let mut filled = zeroed;
    filled[2] = 0xd5;
    filled[3] = 0xcd;
    assert_eq!(icmp::v4::checksum(&filled), icmp::v4::checksum(&zeroed));
}

#[test]
fn v4_checksum_round_trip_verifies_as_zero() {
    let msg = [0x08u8, 0x00, 0x00, 0x00, 0x00, 0x01, 0x00, 0x01, 0x68, 0x69];
    let c = icmp::v4::checksum(&msg);
    let mut wire = msg;
    wire[2] = (c >> 8) as u8;
    wire[3] = (c & 0xFF) as u8;
    let total = fold(icmp::sum_be16(&wire));
    assert_eq!(0xFFFF - total, 0);
}

#[test]
fn v6_checksum_known_vector() {
    // src = fe80::1, dst = fe80::2, message = an echo request header.
    let src: u128 = 0xfe80_0000_0000_0000_0000_0000_0000_0001;
    let dst: u128 = 0xfe80_0000_0000_0000_0000_0000_0000_0002;
    let msg = [0x80u8, 0x00, 0x00, 0x00, 0x00, 0x01, 0x00, 0x01];
    assert_eq!(icmp::v6::checksum(src, dst, &msg), 0x82b6);
}

#[test]
fn v6_checksum_round_trip_verifies_as_zero() {
    let src: u128 = 0xfe80_0000_0000_0000_0000_0000_0000_0001;
    let dst: u128 = 0xfe80_0000_0000_0000_0000_0000_0000_0002;
    let msg = [0x80u8, 0x00, 0x00, 0x00, 0x00, 0x01, 0x00, 0x01];
    let c = icmp::v6::checksum(src, dst, &msg);
    let mut wire = msg;
    wire[2] = (c >> 8) as u8;
    wire[3] = (c & 0xFF) as u8;
    // Sum the pseudo-header by hand: eight words per address, the length
    // as two words, and the next-header value.
    let mut sum: u64 = 0;
    for k in 0..8 {
        sum += ((src >> (16 * (7 - k))) & 0xFFFF) as u64;
        sum += ((dst >> (16 * (7 - k))) & 0xFFFF) as u64;
    }
    sum += wire.len() as u64;
    sum += 58;
    sum += icmp::sum_be16(&wire);
    assert_eq!(0xFFFF - fold(sum), 0);
}

#[test]
fn sum_be16_pads_odd_input_with_zero() {
    let odd = [0xde_u8, 0xad, 0xbe];
    let padded = [0xde_u8, 0xad, 0xbe, 0x00];
    assert_eq!(icmp::sum_be16(&odd), icmp::sum_be16(&padded));
    assert_eq!(icmp::sum_be16(&odd), 0xdead + 0xbe00);
}

#[test]
fn sum_be16_empty_is_zero() {
    assert_eq!(icmp::sum_be16(&[]), 0);
}

#[test]
fn v4_checksum_short_messages() {
    // Too short for any word: everything sums to zero, complement is all
    // ones.
    assert_eq!(icmp::v4::checksum(&[]), 0xFFFF);
    assert_eq!(icmp::v4::checksum(&[0x12]), 0xFFFF);
    // One full word, no payload past the checksum field.
    assert_eq!(icmp::v4::checksum(&[0x12, 0x34]), 0xFFFF - 0x1234);
    assert_eq!(icmp::v4::checksum(&[0x12, 0x34, 0xAA]), 0xFFFF - 0x1234);
}
