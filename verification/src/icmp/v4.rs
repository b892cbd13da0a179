//! ICMPv4 message types, the 8-byte echo header, and the IPv4 variant of
//! the internet checksum.

use vstd::prelude::*;

use crate::icmp::{
    checksum_seq_spec,
    fold_carry,
    lemma_sum_words_bound,
    skip_sum,
    sum_be16_from,
};

verus! {

/// ICMPv4 message type: echo reply.
pub const ECHO_REPLY: u8 = 0;

/// ICMPv4 message type: destination unreachable.
pub const UNREACHABLE: u8 = 3;

/// ICMPv4 message type: echo request.
pub const ECHO_REQUEST: u8 = 8;

/// The type of an ICMPv4 message.
#[derive(Debug, Clone, Copy, PartialEq, Eq, Structural)]
pub struct Type(pub u8);

impl Type {
    /// Wrap a raw ICMPv4 message type.
    pub fn new(v: u8) -> (r: Type)
        ensures
            r.0 == v,
    {
        Type(v)
    }
}

/// The code for a Destination Unreachable ICMPv4 message.
#[derive(Debug, Clone, Copy, PartialEq, Eq, Structural)]
pub struct UnreachableCode(pub u8);

/// Destination Unreachable code: net unreachable.
pub const NET_UNREACHABLE: u8 = 0;

/// Destination Unreachable code: host unreachable.
pub const HOST_UNREACHABLE: u8 = 1;

/// Destination Unreachable code: protocol unreachable.
pub const PROTOCOL_UNREACHABLE: u8 = 2;

/// Destination Unreachable code: port unreachable.
pub const PORT_UNREACHABLE: u8 = 3;

/// Destination Unreachable code: fragmentation needed and don't-fragment set.
pub const FRAGMENTATION_NEEDED: u8 = 4;

/// Destination Unreachable code: source route failed.
pub const SOURCE_ROUTE_FAILED: u8 = 5;

impl UnreachableCode {
    /// Wrap a raw Destination Unreachable code.
    pub fn new(v: u8) -> (r: UnreachableCode)
        ensures
            r.0 == v,
    {
        UnreachableCode(v)
    }
}

/// The wire bytes of a header: big-endian, type first.
pub open spec fn header_bytes_spec(ty: u8, code: u8, checksum: u16, identifier: u16, sequence: u16) -> Seq<u8> {
    seq![
        ty,
        code,
        (checksum / 0x100) as u8,
        (checksum % 0x100) as u8,
        (identifier / 0x100) as u8,
        (identifier % 0x100) as u8,
        (sequence / 0x100) as u8,
        (sequence % 0x100) as u8,
    ]
}

/// The ICMPv4 header structure: 8 bytes on the wire, big-endian fields.
#[derive(Debug, Clone, Copy, PartialEq, Eq, Structural)]
pub struct Header {
    /// The message type.
    pub ty: Type,
    /// The message code.
    pub code: u8,
    /// The checksum field, in host order.
    pub checksum: u16,
    /// The identifier field, in host order.
    pub identifier: u16,
    /// The sequence field, in host order.
    pub sequence: u16,
}

impl Header {
    /// The wire bytes of this header.
    pub open spec fn bytes_spec(&self) -> Seq<u8> {
        header_bytes_spec(
            self.ty.0,
            self.code,
            self.checksum,
            self.identifier,
            self.sequence,
        )
    }

    /// A header with all fields set to zero.
    pub fn zeroed() -> (r: Header)
        ensures
            r.ty.0 == 0,
            r.code == 0,
            r.checksum == 0,
            r.identifier == 0,
            r.sequence == 0,
    {
        Header { ty: Type(0), code: 0, checksum: 0, identifier: 0, sequence: 0 }
    }

    /// Read the given wire bytes as a header.
    pub fn from_array(buffer: [u8; 8]) -> (r: Header)
        ensures
            r.ty.0 == buffer@[0],
            r.code == buffer@[1],
            r.checksum == buffer@[2] * 0x100 + buffer@[3],
            r.identifier == buffer@[4] * 0x100 + buffer@[5],
            r.sequence == buffer@[6] * 0x100 + buffer@[7],
    {
        Header {
            ty: Type(buffer[0]),
            code: buffer[1],
            checksum: (buffer[2] as u16) * 0x100 + (buffer[3] as u16),
            identifier: (buffer[4] as u16) * 0x100 + (buffer[5] as u16),
            sequence: (buffer[6] as u16) * 0x100 + (buffer[7] as u16),
        }
    }

    /// Get the checksum from the header.
    pub fn checksum(&self) -> (r: u16)
        ensures
            r == self.checksum,
    {
        self.checksum
    }

    /// Set the checksum in the header.
    pub fn set_checksum(&mut self, checksum: u16)
        ensures
            final(self).checksum == checksum,
            final(self).ty == old(self).ty,
            final(self).code == old(self).code,
            final(self).identifier == old(self).identifier,
            final(self).sequence == old(self).sequence,
    {
        self.checksum = checksum;
    }

    /// Get the identifier from the header.
    pub fn identifier(&self) -> (r: u16)
        ensures
            r == self.identifier,
    {
        self.identifier
    }

    /// Get the sequence number from the header.
    pub fn sequence(&self) -> (r: u16)
        ensures
            r == self.sequence,
    {
        self.sequence
    }

    /// Set the sequence number in the header.
    pub fn set_sequence(&mut self, sequence: u16)
        ensures
            final(self).sequence == sequence,
            final(self).ty == old(self).ty,
            final(self).code == old(self).code,
            final(self).checksum == old(self).checksum,
            final(self).identifier == old(self).identifier,
    {
        self.sequence = sequence;
    }

    /// Get the header as its wire bytes.
    pub fn as_bytes(&self) -> (r: Vec<u8>)
        ensures
            r@ == self.bytes_spec(),
    {
        let mut r: Vec<u8> = Vec::new();
        r.push(self.ty.0);
        r.push(self.code);
        r.push((self.checksum / 0x100) as u8);
        r.push((self.checksum % 0x100) as u8);
        r.push((self.identifier / 0x100) as u8);
        r.push((self.identifier % 0x100) as u8);
        r.push((self.sequence / 0x100) as u8);
        r.push((self.sequence % 0x100) as u8);
        proof {
            assert(r@ =~= self.bytes_spec());
        }
        r
    }
}

/// Compute the expected ICMPv4 checksum of a message: the complement of the
/// folded word sum with the checksum field itself treated as zero.
pub fn checksum(icmp: &[u8]) -> (r: u16)
    requires
        icmp@.len() <= 0xFFFF_FFFF,
    ensures
        r == checksum_seq_spec(icmp@),
{
    let n = icmp.len();
    let mut sum: u64 = 0;
    if n >= 2 {
        sum = (icmp[0] as u64) * 0x100 + (icmp[1] as u64);
    }
    if n >= 4 {
        proof {
            lemma_sum_words_bound(icmp@.skip(4));
        }
        sum = sum + sum_be16_from(icmp, 4);
    }
    proof {
        assert(sum == skip_sum(icmp@));
    }
    let folded = fold_carry(sum);
    (0xFFFF - folded) as u16
}

/// Writing the computed checksum into bytes 2 and 3 of the message makes the
/// full word sum fold to `0xFFFF`, so the recomputed checksum over the
/// complete message is zero.
pub proof fn lemma_checksum_inject_zero(s: Seq<u8>)
    requires
        s.len() >= 4,
    ensures
        ({
            let t = crate::icmp::inject_checksum(s, checksum_seq_spec(s));
            (0xFFFF - crate::icmp::fold_sum(crate::icmp::sum_words(t))) as u16 == 0
        }),
{
    crate::icmp::lemma_skip_sum_bound(s);
    crate::icmp::lemma_checksum_inject(s, 0);
}

} // verus!
