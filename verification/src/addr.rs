//! IP addresses as plain values.
//!
//! An IPv4 address is held as its 32-bit big-endian integer value, an IPv6
//! address as its 128-bit value, so that contracts can speak of address
//! classes as integer ranges.

use vstd::prelude::*;

verus! {

/// An IPv4 or IPv6 address as a plain integer value.
#[derive(Debug, Clone, Copy, PartialEq, Eq, Structural)]
pub enum Addr {
    /// An IPv4 address; `0x7F00_0001` is `127.0.0.1`.
    V4(u32),
    /// An IPv6 address; `1` is `::1`.
    V6(u128),
}

/// Total order on addresses: every IPv4 address sorts before every IPv6
/// address, and addresses of one family sort numerically.
pub open spec fn addr_lt_spec(a: Addr, b: Addr) -> bool {
    match (a, b) {
        (Addr::V4(x), Addr::V4(y)) => x < y,
        (Addr::V4(_), Addr::V6(_)) => true,
        (Addr::V6(_), Addr::V4(_)) => false,
        (Addr::V6(x), Addr::V6(y)) => x < y,
    }
}

impl Addr {
    /// Whether this address is an IPv4 address.
    pub fn is_v4(&self) -> (r: bool)
        ensures
            r == self is V4,
    {
        match self {
            Addr::V4(_) => true,
            Addr::V6(_) => false,
        }
    }

    /// Strict comparison in the order given by [`addr_lt_spec`].
    pub fn lt(&self, other: &Addr) -> (r: bool)
        ensures
            r == addr_lt_spec(*self, *other),
    {
        match (self, other) {
            (Addr::V4(x), Addr::V4(y)) => x < y,
            (Addr::V4(_), Addr::V6(_)) => true,
            (Addr::V6(_), Addr::V4(_)) => false,
            (Addr::V6(x), Addr::V6(y)) => x < y,
        }
    }
}

/// An IPv4 address is eligible as a ping target when it is none of:
/// multicast (`224.0.0.0/4`), loopback (`127.0.0.0/8`), link-local
/// (`169.254.0.0/16`), broadcast (`255.255.255.255`), documentation
/// (`192.0.2.0/24`, `198.51.100.0/24`, `203.0.113.0/24`) or unspecified
/// (`0.0.0.0`).
pub open spec fn v4_unicast_spec(a: u32) -> bool {
    &&& !(0xE000_0000 <= a < 0xF000_0000)
    &&& !(0x7F00_0000 <= a < 0x8000_0000)
    &&& !(0xA9FE_0000 <= a < 0xA9FF_0000)
    &&& a != 0xFFFF_FFFF
    &&& !(0xC000_0200 <= a < 0xC000_0300)
    &&& !(0xC633_6400 <= a < 0xC633_6500)
    &&& !(0xCB00_7100 <= a < 0xCB00_7200)
    &&& a != 0
}

/// An IPv6 address is eligible as a ping target when it is none of:
/// multicast (`ff00::/8`), loopback (`::1`), unicast link-local
/// (`fe80::/10`) or unspecified (`::`).
pub open spec fn v6_unicast_spec(a: u128) -> bool {
    &&& !(0xFF00_0000_0000_0000_0000_0000_0000_0000 <= a)
    &&& a != 1
    &&& !(0xFE80_0000_0000_0000_0000_0000_0000_0000 <= a
        < 0xFEC0_0000_0000_0000_0000_0000_0000_0000)
    &&& a != 0
}

/// Whether an address may be pinged at all.
pub open spec fn unicast_spec(a: Addr) -> bool {
    match a {
        Addr::V4(x) => v4_unicast_spec(x),
        Addr::V6(x) => v6_unicast_spec(x),
    }
}

/// Decide whether an IPv4 address is a permissible ping target.
pub fn is_unicast_v4(a: u32) -> (r: bool)
    ensures
        r == v4_unicast_spec(a),
{
    let multicast = 0xE000_0000 <= a && a < 0xF000_0000;
    let loopback = 0x7F00_0000 <= a && a < 0x8000_0000;
    let link_local = 0xA9FE_0000 <= a && a < 0xA9FF_0000;
    let broadcast = a == 0xFFFF_FFFF;
    let documentation = (0xC000_0200 <= a && a < 0xC000_0300) || (0xC633_6400 <= a && a
        < 0xC633_6500) || (0xCB00_7100 <= a && a < 0xCB00_7200);
    let unspecified = a == 0;
    !multicast && !loopback && !link_local && !broadcast && !documentation && !unspecified
}

/// Decide whether an IPv6 address is a permissible ping target.
pub fn is_unicast_v6(a: u128) -> (r: bool)
    ensures
        r == v6_unicast_spec(a),
{
    let multicast = 0xFF00_0000_0000_0000_0000_0000_0000_0000 <= a;
    let loopback = a == 1;
    let link_local = 0xFE80_0000_0000_0000_0000_0000_0000_0000 <= a && a
        < 0xFEC0_0000_0000_0000_0000_0000_0000_0000;
    let unspecified = a == 0;
    !multicast && !loopback && !link_local && !unspecified
}

/// Decide whether an address is a permissible ping target.
pub fn is_unicast(a: &Addr) -> (r: bool)
    ensures
        r == unicast_spec(*a),
{
    match a {
        Addr::V4(x) => is_unicast_v4(*x),
        Addr::V6(x) => is_unicast_v6(*x),
    }
}

} // verus!
