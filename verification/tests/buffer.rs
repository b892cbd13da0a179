//! The staging buffer: reads march through it, writes append, and appends
//! that fit concatenate without loss.

use wolo::buf::{Buffer, MTU};
use wolo::error::Error;

#[test]
fn read_marches_and_reports_too_small() {
    let mut buf = Buffer::new();
    buf.extend_from_slice(&[0xde, 0xad, 0xbe, 0xef, 0x12, 0x34]);
    let first = buf.read(4).unwrap();
    assert_eq!(first, vec![0xde, 0xad, 0xbe, 0xef]);
    let second = buf.read(4);
    assert!(matches!(
        second,
        Err(Error::BufferTooSmall { actual: 6, needed: 8 })
    ));
    // The failed read did not move the position.
    assert_eq!(buf.read(2).unwrap(), vec![0x12, 0x34]);
}

#[test]
fn extends_concatenate() {
    let mut buf = Buffer::new();
    buf.extend_from_slice(&[1, 2, 3]);
    buf.extend_from_slice(&[]);
    buf.extend_from_slice(&[4]);
    buf.extend_from_slice(&[5, 6]);
    assert_eq!(buf.as_bytes(), vec![1, 2, 3, 4, 5, 6]);
}

#[test]
fn extend_truncates_at_capacity() {
    let mut buf = Buffer::new();
    let big = vec![7u8; MTU + 100];
    buf.extend_from_slice(&big);
    assert_eq!(buf.as_bytes().len(), MTU);
    buf.extend_from_slice(&[8, 8]);
    assert_eq!(buf.as_bytes().len(), MTU);
}

#[test]
fn clear_rewinds_both_positions() {
    let mut buf = Buffer::new();
    buf.extend_from_slice(&[1, 2, 3, 4]);
    let _ = buf.read(2).unwrap();
    buf.clear();
    assert_eq!(buf.as_bytes(), Vec::<u8>::new());
    assert_eq!(buf.remaining_mut(), MTU);
    buf.extend_from_slice(&[9, 9]);
    assert_eq!(buf.as_bytes(), vec![9, 9]);
}

#[test]
fn advance_saturates_at_capacity() {
    let mut buf = Buffer::new();
    buf.advance(10);
    assert_eq!(buf.remaining_mut(), MTU - 10);
    buf.advance(usize::MAX);
    assert_eq!(buf.remaining_mut(), 0);
}

#[test]
fn as_bytes_shows_only_unread_window() {
    let mut buf = Buffer::new();
    buf.extend_from_slice(&[1, 2, 3, 4, 5]);
    let _ = buf.read(2).unwrap();
    assert_eq!(buf.as_bytes(), vec![3, 4, 5]);
}
