//! Core of a network liveness monitor: ICMP echo framing and checksums, an
//! MTU-sized staging buffer, a host-name cache model, and the per-address
//! probe scheduler that correlates echo replies and timeouts and publishes
//! per-host snapshots.

pub mod addr;
pub mod buf;
pub mod error;
pub mod host_name_cache;
pub mod hosts;
pub mod icmp;
pub mod ip;
pub mod pinger;
pub mod ping_loop;
pub mod wake_on_lan;
