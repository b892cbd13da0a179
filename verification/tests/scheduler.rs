//! The probe scheduler as a state machine: resolution, dispatch, replies,
//! timeouts, and host churn.

use wolo::addr::{is_unicast, is_unicast_v4, is_unicast_v6, Addr};
use wolo::host_name_cache::{CacheNameResult, HostNameCache, TTL_MS};
use wolo::icmp;
use wolo::ping_loop::{
    Dispatch, PingError, PingErrorKind, PingKind, PingResult, Pinged, Scheduler, NEXT_MS,
    TIMEOUT_MS,
};
use wolo::pinger::{Outcome, Response};

const HOST: u128 = 0x1111_2222;

fn target() -> Addr {
    Addr::V4(0xC0A8_0001)
}

fn resolution(addrs: &[Addr]) -> CacheNameResult {
    let mut r = CacheNameResult::new();
    for a in addrs {
        r.add_address(*a);
    }
    r
}

fn reply(target: Addr) -> Response {
    Response {
        outcome: Outcome::V4(icmp::v4::Type(icmp::v4::ECHO_REPLY)),
        code: 0,
        source: target,
        dest: Addr::V4(0xC0A8_0002),
        identifier: 0,
        sequence: 1,
        checksum: 0xd5cd,
        expected_checksum: 0xd5cd,
    }
}

#[test]
fn resolution_schedules_one_ping_per_address() {
    let mut s = Scheduler::new();
    let changed = s.on_resolution(HOST, resolution(&[target()]), 1000);
    assert!(changed);
    assert_eq!(s.next_deadline(), Some(1000));
    match s.on_deadline(1000) {
        Dispatch::Send { host, addr, token: _ } => {
            assert_eq!(host, HOST);
            assert_eq!(addr, target());
        }
        other => panic!("expected a send, got {:?}", other),
    }
}

#[test]
fn unchanged_resolution_is_ignored() {
    let mut s = Scheduler::new();
    assert!(s.on_resolution(HOST, resolution(&[target()]), 1000));
    assert!(!s.on_resolution(HOST, resolution(&[target()]), 2000));
    assert!(s.on_resolution(HOST, resolution(&[target(), Addr::V6(0x2001)]), 3000));
}

#[test]
fn reply_records_result_and_rtt() {
    let mut s = Scheduler::new();
    s.on_resolution(HOST, resolution(&[target()]), 1000);
    let token = match s.on_deadline(1000) {
        Dispatch::Send { token, .. } => token,
        other => panic!("expected a send, got {:?}", other),
    };
    s.ping_sent(HOST, target(), token, 1000);
    s.on_reply(token, PingKind::V4, &reply(target()), 1250);
    let snap = s.snapshot(HOST).unwrap();
    assert_eq!(snap.results.len(), 1);
    let r = &snap.results[0];
    assert_eq!(r.target, target());
    assert_eq!(r.rtt, 250);
    assert_eq!(r.sampled, 1250);
    assert!(r.outcome.is_echo_reply());
    assert!(snap.errors.is_empty());
    // The task went back to Ping, due one interval after the send.
    assert_eq!(s.next_deadline(), Some(1000 + NEXT_MS));
}

#[test]
fn unknown_token_is_dropped() {
    let mut s = Scheduler::new();
    s.on_resolution(HOST, resolution(&[target()]), 1000);
    s.on_reply(42, PingKind::V4, &reply(target()), 1250);
    let snap = s.snapshot(HOST).unwrap();
    assert!(snap.results.is_empty());
}

#[test]
fn late_reply_after_timeout_is_dropped() {
    let mut s = Scheduler::new();
    s.on_resolution(HOST, resolution(&[target()]), 1000);
    let token = match s.on_deadline(1000) {
        Dispatch::Send { token, .. } => token,
        other => panic!("expected a send, got {:?}", other),
    };
    s.ping_sent(HOST, target(), token, 1000);
    // The timeout fires first and forgets the token.
    match s.on_deadline(1000 + TIMEOUT_MS) {
        Dispatch::TimedOut { host, addr } => {
            assert_eq!(host, HOST);
            assert_eq!(addr, target());
        }
        other => panic!("expected a timeout, got {:?}", other),
    }
    let snap = s.snapshot(HOST).unwrap();
    assert_eq!(snap.errors.len(), 1);
    assert_eq!(snap.errors[0].error, "timeout");
    assert_eq!(snap.errors[0].kind.as_address(), Some(target()));
    assert!(snap.results.is_empty());
    // The late reply finds no token and changes nothing.
    s.on_reply(token, PingKind::V4, &reply(target()), 1000 + TIMEOUT_MS + 1);
    let snap = s.snapshot(HOST).unwrap();
    assert!(snap.results.is_empty());
    assert_eq!(snap.errors.len(), 1);
}

#[test]
fn result_replaces_timeout_error_for_address() {
    let mut s = Scheduler::new();
    s.on_resolution(HOST, resolution(&[target()]), 1000);
    let token = match s.on_deadline(1000) {
        Dispatch::Send { token, .. } => token,
        other => panic!("expected a send, got {:?}", other),
    };
    s.ping_sent(HOST, target(), token, 1000);
    let _ = s.on_deadline(1000 + TIMEOUT_MS);
    // Probe again; this time the reply arrives.
    let token = match s.on_deadline(1000 + TIMEOUT_MS + NEXT_MS) {
        Dispatch::Send { token, .. } => token,
        other => panic!("expected a send, got {:?}", other),
    };
    let now = 1000 + TIMEOUT_MS + NEXT_MS;
    s.ping_sent(HOST, target(), token, now);
    s.on_reply(token, PingKind::V4, &reply(target()), now + 5);
    let snap = s.snapshot(HOST).unwrap();
    assert_eq!(snap.results.len(), 1);
    assert!(snap.errors.is_empty());
}

#[test]
fn non_unicast_target_is_pruned() {
    let mut s = Scheduler::new();
    let broadcast = Addr::V4(0xFFFF_FFFF);
    s.on_resolution(HOST, resolution(&[broadcast]), 1000);
    match s.on_deadline(1000) {
        Dispatch::Dropped { host, addr } => {
            assert_eq!(host, HOST);
            assert_eq!(addr, broadcast);
        }
        other => panic!("expected a drop, got {:?}", other),
    }
    assert!(s.is_empty());
}

#[test]
fn send_failure_records_error_and_retries() {
    let mut s = Scheduler::new();
    s.on_resolution(HOST, resolution(&[target()]), 1000);
    let _ = s.on_deadline(1000);
    s.ping_failed(HOST, target(), String::from("sendto failed"), 1000);
    let snap = s.snapshot(HOST).unwrap();
    assert_eq!(snap.errors.len(), 1);
    assert_eq!(snap.errors[0].error, "sendto failed");
    assert_eq!(s.next_deadline(), Some(1000 + NEXT_MS));
}

#[test]
fn resolution_change_wipes_old_address_state() {
    let a = Addr::V4(0x0A00_0001);
    let b = Addr::V4(0x0A00_0002);
    let mut s = Scheduler::new();
    s.on_resolution(HOST, resolution(&[a]), 1000);
    let token = match s.on_deadline(1000) {
        Dispatch::Send { token, .. } => token,
        other => panic!("expected a send, got {:?}", other),
    };
    s.ping_sent(HOST, a, token, 1000);
    // The host now resolves to b alone: everything about a disappears.
    s.on_resolution(HOST, resolution(&[b]), 2000);
    let snap = s.snapshot(HOST).unwrap();
    assert!(snap.results.is_empty());
    assert!(snap.errors.is_empty());
    match s.on_deadline(2000) {
        Dispatch::Send { addr, .. } => assert_eq!(addr, b),
        other => panic!("expected a send, got {:?}", other),
    }
    // The old token no longer correlates.
    s.on_reply(token, PingKind::V4, &reply(a), 2100);
    let snap = s.snapshot(HOST).unwrap();
    assert!(snap.results.is_empty());
}

#[test]
fn name_errors_are_published() {
    let mut s = Scheduler::new();
    let mut res = CacheNameResult::new();
    res.add_error(String::from("printer.lan"), String::from("no such host"));
    s.on_resolution(HOST, res, 1000);
    let snap = s.snapshot(HOST).unwrap();
    assert_eq!(snap.errors.len(), 1);
    assert_eq!(snap.errors[0].kind.as_host(), Some("printer.lan"));
    assert_eq!(snap.errors[0].error, "no such host");
}

#[test]
fn removed_host_loses_all_state() {
    let other: u128 = 0x9999;
    let mut s = Scheduler::new();
    s.on_resolution(HOST, resolution(&[target()]), 1000);
    s.on_resolution(other, resolution(&[Addr::V6(0x2001_0db8)]), 1000);
    s.on_hosts(&vec![other]);
    assert!(s.snapshot(HOST).is_none());
    assert!(s.snapshot(other).is_some());
    match s.on_deadline(1000) {
        Dispatch::Send { host, .. } => assert_eq!(host, other),
        Dispatch::Dropped { host, .. } => assert_eq!(host, other),
        other_dispatch => panic!("unexpected dispatch {:?}", other_dispatch),
    }
}

#[test]
fn deadlines_fire_in_deterministic_order() {
    let a = Addr::V4(0x0A00_0001);
    let b = Addr::V4(0x0A00_0002);
    let mut s = Scheduler::new();
    s.on_resolution(HOST, resolution(&[a, b]), 1000);
    // Same deadline: the smaller address fires first.
    match s.on_deadline(1000) {
        Dispatch::Send { addr, token, .. } => {
            assert_eq!(addr, a);
            s.ping_sent(HOST, a, token, 1000);
        }
        other => panic!("expected a send, got {:?}", other),
    }
    match s.on_deadline(1000) {
        Dispatch::Send { addr, .. } => assert_eq!(addr, b),
        other => panic!("expected a send, got {:?}", other),
    }
}

#[test]
fn pinged_result_replaces_and_sorts() {
    let a = Addr::V4(1);
    let b = Addr::V4(2);
    let mut p = Pinged::new();
    let mk = |target: Addr, rtt: u64| PingResult {
        kind: PingKind::V4,
        outcome: Outcome::V4(icmp::v4::Type(icmp::v4::ECHO_REPLY)),
        code: 0,
        sequence: 0,
        rtt,
        sampled: 0,
        target,
        source: target,
        dest: target,
        checksum: 0,
        expected_checksum: 0,
    };
    p.result(mk(b, 10));
    p.result(mk(a, 20));
    p.result(mk(b, 30));
    assert_eq!(p.results.len(), 2);
    assert_eq!(p.results[0].target, a);
    assert_eq!(p.results[1].target, b);
    assert_eq!(p.results[1].rtt, 30);
}

#[test]
fn pinged_error_replaces_same_kind_and_prunes_result() {
    let a = Addr::V4(1);
    let mut p = Pinged::new();
    p.result(PingResult {
        kind: PingKind::V4,
        outcome: Outcome::V4(icmp::v4::Type(icmp::v4::ECHO_REPLY)),
        code: 0,
        sequence: 0,
        rtt: 1,
        sampled: 0,
        target: a,
        source: a,
        dest: a,
        checksum: 0,
        expected_checksum: 0,
    });
    p.error(PingError {
        error: String::from("timeout"),
        kind: PingErrorKind::Address(a),
        sampled: 5,
    });
    assert!(p.results.is_empty());
    assert_eq!(p.errors.len(), 1);
    p.error(PingError {
        error: String::from("timeout"),
        kind: PingErrorKind::Address(a),
        sampled: 9,
    });
    assert_eq!(p.errors.len(), 1);
    assert_eq!(p.errors[0].sampled, 9);
}

#[test]
fn cache_inserts_reads_and_evicts() {
    let mut cache = HostNameCache::new();
    assert!(cache.get(HOST).is_none());
    cache.insert(HOST, resolution(&[target()]), 1000);
    let cached = cache.get(HOST).unwrap();
    assert_eq!(cached.addresses.len(), 1);
    cache.evict_old(1000 + TTL_MS);
    assert!(cache.get(HOST).is_some());
    cache.evict_old(1000 + TTL_MS + 1);
    assert!(cache.get(HOST).is_none());
}

#[test]
fn unicast_discipline() {
    assert!(is_unicast_v4(0xC0A8_0001)); // 192.168.0.1
    assert!(!is_unicast_v4(0x7F00_0001)); // loopback
    assert!(!is_unicast_v4(0xE000_0001)); // multicast
    assert!(!is_unicast_v4(0xA9FE_0001)); // link-local
    assert!(!is_unicast_v4(0xFFFF_FFFF)); // broadcast
    assert!(!is_unicast_v4(0xC000_0201)); // 192.0.2.1, documentation
    assert!(!is_unicast_v4(0)); // unspecified
    assert!(is_unicast_v6(0x2001_0db8_0000_0000_0000_0000_0000_0001_u128 | 1));
    assert!(!is_unicast_v6(1)); // loopback
    assert!(!is_unicast_v6(0)); // unspecified
    assert!(!is_unicast_v6(0xFF02_0000_0000_0000_0000_0000_0000_0001)); // multicast
    assert!(!is_unicast_v6(0xFE80_0000_0000_0000_0000_0000_0000_0001)); // link-local
    assert!(is_unicast(&Addr::V4(0x0A00_0001)));
}

#[test]
fn magic_packet_layout() {
    let mac = [0x01, 0x02, 0x03, 0x04, 0x05, 0x06];
    let packet = wolo::wake_on_lan::MagicPacket::new(mac);
    let bytes = packet.as_bytes();
    assert_eq!(bytes.len(), 102);
    assert_eq!(&bytes[..6], &[0xFF; 6]);
    for k in 0..16 {
        assert_eq!(&bytes[6 + 6 * k..12 + 6 * k], &mac);
    }
}

#[test]
fn builder_collects_paths() {
    let mut b = wolo::hosts::Builder::new();
    b.add_ethers_path("/etc/ethers");
    b.add_hosts_path("/etc/hosts");
    b.add_hosts_path("/tmp/hosts");
    assert_eq!(b.ether_paths().len(), 1);
    assert_eq!(b.host_paths().len(), 2);
    assert_eq!(b.host_paths()[1], "/tmp/hosts");
}

#[test]
fn host_display_names_prefer_the_preferred() {
    let host = wolo::hosts::Host {
        id: 7,
        names: vec![String::from("a.lan"), String::from("b.lan")],
        macs: vec![],
        preferred_name: Some(String::from("b.lan")),
        ignore: false,
        addresses: vec![],
    };
    assert_eq!(host.display_names(), vec![String::from("b.lan")]);
    let host = wolo::hosts::Host { preferred_name: None, ..host };
    assert_eq!(
        host.display_names(),
        vec![String::from("a.lan"), String::from("b.lan")]
    );
}

#[test]
fn content_id_is_stable_and_content_derived() {
    let names = vec![b"desktop.lan".to_vec()];
    let macs = vec![[1u8, 2, 3, 4, 5, 6]];
    let a = wolo::hosts::content_id(&names, &macs);
    let b = wolo::hosts::content_id(&names, &macs);
    assert_eq!(a, b);
    let other = wolo::hosts::content_id(&names, &vec![[1u8, 2, 3, 4, 5, 7]]);
    assert_ne!(a, other);
}

#[test]
fn host_stream_layout() {
    let names = vec![b"ab".to_vec()];
    let macs = vec![[9u8, 8, 7, 6, 5, 4]];
    let stream = wolo::hosts::host_stream_bytes(&names, &macs);
    let mut expected = vec![0u8, 0, 0, 0, 0, 0, 0, 1];
    expected.push(0x01);
    expected.extend_from_slice(b"ab");
    expected.extend_from_slice(&[0, 0, 0, 0, 0, 0, 0, 1]);
    expected.push(0x02);
    expected.extend_from_slice(&[9, 8, 7, 6, 5, 4]);
    assert_eq!(stream, expected);
}

#[test]
fn build_id_matches_content_id() {
    let mut host = wolo::hosts::Host {
        id: 0,
        names: vec![String::from("desktop.lan")],
        macs: vec![[1u8, 2, 3, 4, 5, 6]],
        preferred_name: None,
        ignore: false,
        addresses: vec![],
    };
    host.build_id();
    let expected =
        wolo::hosts::content_id(&vec![b"desktop.lan".to_vec()], &vec![[1u8, 2, 3, 4, 5, 6]]);
    assert_eq!(host.id, expected);
    assert_ne!(host.id, 0);
}

#[test]
fn resolution_builders_sort_dedup_and_replace() {
    let mut r = CacheNameResult::new();
    r.add_address(Addr::V6(5));
    r.add_address(Addr::V4(9));
    r.add_address(Addr::V4(3));
    r.add_address(Addr::V4(9));
    assert_eq!(
        r.addresses,
        vec![Addr::V4(3), Addr::V4(9), Addr::V6(5)]
    );
    r.add_error(String::from("a.lan"), String::from("first try"));
    r.add_error(String::from("b.lan"), String::from("no such host"));
    r.add_error(String::from("a.lan"), String::from("second try"));
    assert_eq!(r.errors.len(), 2);
    assert_eq!(r.errors[0].name, "a.lan");
    assert_eq!(r.errors[0].error, "second try");
    assert_eq!(r.errors[1].name, "b.lan");
}
