//! A typed view on the IPv4 header, for sockets that deliver it.

use vstd::prelude::*;

verus! {

/// The protocol number of ICMP in an IPv4 header.
pub const PROTOCOL_ICMP: u8 = 1;

/// The IPv4 header structure: the first 20 bytes of a raw packet.
#[derive(Debug, Clone, Copy)]
pub struct Header {
    bytes: [u8; 20],
}

impl Header {
    /// The raw header bytes.
    pub closed spec fn bytes_spec(&self) -> Seq<u8> {
        self.bytes@
    }

    /// Read the given wire bytes as an IPv4 header.
    pub fn from_array(bytes: [u8; 20]) -> (r: Header)
        ensures
            r.bytes_spec() == bytes@,
    {
        Header { bytes }
    }

    /// Get the version from the header: the high nibble of the first byte.
    pub fn version(&self) -> (r: u8)
        ensures
            r == self.bytes_spec()[0] / 16,
    {
        self.bytes[0] / 16
    }

    /// Get the protocol from the header: its tenth byte.
    pub fn protocol(&self) -> (r: i32)
        ensures
            r == self.bytes_spec()[9],
    {
        self.bytes[9] as i32
    }
}

} // verus!
