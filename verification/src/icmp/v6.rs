//! ICMPv6 message types, the 8-byte echo header, and the IPv6 variant of
//! the internet checksum, which includes the pseudo-header.

use vstd::prelude::*;

use crate::icmp::{
    fold_carry,
    fold_sum,
    lemma_sum_words_bound,
    skip_sum,
    sum_be16_from,
};

verus! {

/// ICMPv6 message type: destination unreachable.
pub const UNREACHABLE: u8 = 1;

/// ICMPv6 message type: echo request.
pub const ECHO_REQUEST: u8 = 128;

/// ICMPv6 message type: echo reply.
pub const ECHO_REPLY: u8 = 129;

/// The next-header value that identifies ICMPv6 in the pseudo-header.
pub const NEXT_HEADER_ICMPV6: u8 = 58;

/// The type of an ICMPv6 message.
#[derive(Debug, Clone, Copy, PartialEq, Eq, Structural)]
pub struct Type(pub u8);

impl Type {
    /// Wrap a raw ICMPv6 message type.
    pub fn new(v: u8) -> (r: Type)
        ensures
            r.0 == v,
    {
        Type(v)
    }
}

/// The code for a Destination Unreachable ICMPv6 message.
#[derive(Debug, Clone, Copy, PartialEq, Eq, Structural)]
pub struct Unreachable(pub u8);

/// Destination Unreachable code: no route to the destination.
pub const NO_ROUTE: u8 = 0;

/// Destination Unreachable code: administratively prohibited.
pub const ADMINISTRATIVELY_PROHIBITED: u8 = 1;

/// Destination Unreachable code: beyond scope of source address.
pub const BEYOND_SCOPE: u8 = 2;

/// Destination Unreachable code: address unreachable.
pub const ADDRESS_UNREACHABLE: u8 = 3;

/// Destination Unreachable code: port unreachable.
pub const PORT_UNREACHABLE: u8 = 4;

impl Unreachable {
    /// Wrap a raw Destination Unreachable code.
    pub fn new(v: u8) -> (r: Unreachable)
        ensures
            r.0 == v,
    {
        Unreachable(v)
    }
}

/// The ICMPv6 header structure: 8 bytes on the wire, big-endian fields.
#[derive(Debug, Clone, Copy, PartialEq, Eq, Structural)]
pub struct Header {
    /// The message type.
    pub ty: Type,
    /// The message code.
    pub code: u8,
    /// The checksum field, in host order.
    pub checksum: u16,
    /// The identifier field, in host order.
    pub identifier: u16,
    /// The sequence field, in host order.
    pub sequence: u16,
}

impl Header {
    /// The wire bytes of this header.
    pub open spec fn bytes_spec(&self) -> Seq<u8> {
        crate::icmp::v4::header_bytes_spec(
            self.ty.0,
            self.code,
            self.checksum,
            self.identifier,
            self.sequence,
        )
    }

    /// A header with all fields set to zero.
    pub fn zeroed() -> (r: Header)
        ensures
            r.ty.0 == 0,
            r.code == 0,
            r.checksum == 0,
            r.identifier == 0,
            r.sequence == 0,
    {
        Header { ty: Type(0), code: 0, checksum: 0, identifier: 0, sequence: 0 }
    }

    /// Read the given wire bytes as a header.
    pub fn from_array(buffer: [u8; 8]) -> (r: Header)
        ensures
            r.ty.0 == buffer@[0],
            r.code == buffer@[1],
            r.checksum == buffer@[2] * 0x100 + buffer@[3],
            r.identifier == buffer@[4] * 0x100 + buffer@[5],
            r.sequence == buffer@[6] * 0x100 + buffer@[7],
    {
        Header {
            ty: Type(buffer[0]),
            code: buffer[1],
            checksum: (buffer[2] as u16) * 0x100 + (buffer[3] as u16),
            identifier: (buffer[4] as u16) * 0x100 + (buffer[5] as u16),
            sequence: (buffer[6] as u16) * 0x100 + (buffer[7] as u16),
        }
    }

    /// Get the checksum from the header.
    pub fn checksum(&self) -> (r: u16)
        ensures
            r == self.checksum,
    {
        self.checksum
    }

    /// Get the identifier from the header.
    pub fn identifier(&self) -> (r: u16)
        ensures
            r == self.identifier,
    {
        self.identifier
    }

    /// Get the sequence number from the header.
    pub fn sequence(&self) -> (r: u16)
        ensures
            r == self.sequence,
    {
        self.sequence
    }

    /// Set the sequence number in the header.
    pub fn set_sequence(&mut self, sequence: u16)
        ensures
            final(self).sequence == sequence,
            final(self).ty == old(self).ty,
            final(self).code == old(self).code,
            final(self).checksum == old(self).checksum,
            final(self).identifier == old(self).identifier,
    {
        self.sequence = sequence;
    }

    /// Get the header as its wire bytes.
    pub fn as_bytes(&self) -> (r: Vec<u8>)
        ensures
            r@ == self.bytes_spec(),
    {
        let mut r: Vec<u8> = Vec::new();
        r.push(self.ty.0);
        r.push(self.code);
        r.push((self.checksum / 0x100) as u8);
        r.push((self.checksum % 0x100) as u8);
        r.push((self.identifier / 0x100) as u8);
        r.push((self.identifier % 0x100) as u8);
        r.push((self.sequence / 0x100) as u8);
        r.push((self.sequence % 0x100) as u8);
        proof {
            assert(r@ =~= self.bytes_spec());
        }
        r
    }
}

/// The sum of the eight 16-bit big-endian words of an IPv6 address held as
/// its 128-bit value.
pub open spec fn addr_words_sum(x: u128) -> int {
    (x / 0x1_0000_0000_0000_0000_0000_0000_0000) % 0x10000
        + (x / 0x1_0000_0000_0000_0000_0000_0000) % 0x10000
        + (x / 0x1_0000_0000_0000_0000_0000) % 0x10000
        + (x / 0x1_0000_0000_0000_0000) % 0x10000
        + (x / 0x1_0000_0000_0000) % 0x10000
        + (x / 0x1_0000_0000) % 0x10000
        + (x / 0x1_0000) % 0x10000
        + x % 0x10000
}

/// The word sum of the IPv6 pseudo-header: source address, destination
/// address, the upper-layer length as a 32-bit big-endian value, three zero
/// bytes and the ICMPv6 next-header value.
pub open spec fn pseudo_header_sum(src: u128, dst: u128, len: int) -> int {
    addr_words_sum(src) + addr_words_sum(dst) + (len / 0x10000) % 0x10000 + len % 0x10000
        + NEXT_HEADER_ICMPV6
}

/// The ICMPv6 checksum: as the IPv4 one, but over the pseudo-header
/// followed by the message.
pub open spec fn checksum_v6_spec(src: u128, dst: u128, s: Seq<u8>) -> u16 {
    (0xFFFF - fold_sum(pseudo_header_sum(src, dst, s.len() as int) + skip_sum(s))) as u16
}

/// Sum the eight 16-bit words of an IPv6 address.
fn addr_words(x: u128) -> (r: u64)
    ensures
        r == addr_words_sum(x),
        r <= 8 * 0xFFFF,
{
    let w0 = ((x / 0x1_0000_0000_0000_0000_0000_0000_0000) % 0x10000) as u64;
    let w1 = ((x / 0x1_0000_0000_0000_0000_0000_0000) % 0x10000) as u64;
    let w2 = ((x / 0x1_0000_0000_0000_0000_0000) % 0x10000) as u64;
    let w3 = ((x / 0x1_0000_0000_0000_0000) % 0x10000) as u64;
    let w4 = ((x / 0x1_0000_0000_0000) % 0x10000) as u64;
    let w5 = ((x / 0x1_0000_0000) % 0x10000) as u64;
    let w6 = ((x / 0x1_0000) % 0x10000) as u64;
    let w7 = (x % 0x10000) as u64;
    w0 + w1 + w2 + w3 + w4 + w5 + w6 + w7
}

/// Compute the expected ICMPv6 checksum of a message sent from `src` to
/// `dst`: the pseudo-header is summed first, then the message with its
/// checksum field treated as zero.
pub fn checksum(src: u128, dst: u128, icmp: &[u8]) -> (r: u16)
    requires
        icmp@.len() <= 0xFFFF_FFFF,
    ensures
        r == checksum_v6_spec(src, dst, icmp@),
{
    let n = icmp.len();
    let len32 = n as u64;
    let mut sum: u64 = addr_words(src) + addr_words(dst) + (len32 / 0x10000) % 0x10000 + len32
        % 0x10000 + (NEXT_HEADER_ICMPV6 as u64);
    proof {
        assert(sum == pseudo_header_sum(src, dst, icmp@.len() as int));
    }
    if n >= 2 {
        sum = sum + (icmp[0] as u64) * 0x100 + (icmp[1] as u64);
    }
    if n >= 4 {
        proof {
            lemma_sum_words_bound(icmp@.skip(4));
        }
        sum = sum + sum_be16_from(icmp, 4);
    }
    proof {
        assert(sum == pseudo_header_sum(src, dst, icmp@.len() as int) + skip_sum(icmp@));
    }
    let folded = fold_carry(sum);
    (0xFFFF - folded) as u16
}

/// The pseudo-header word sum is non-negative.
pub proof fn lemma_pseudo_header_sum_nonneg(src: u128, dst: u128, len: int)
    requires
        len >= 0,
    ensures
        pseudo_header_sum(src, dst, len) >= 0,
{
}

/// Writing the computed ICMPv6 checksum into bytes 2 and 3 of the message
/// makes the word sum of pseudo-header and message fold to `0xFFFF`, so the
/// recomputed checksum over the complete message is zero.
pub proof fn lemma_checksum_inject_zero(src: u128, dst: u128, s: Seq<u8>)
    requires
        s.len() >= 4,
    ensures
        ({
            let t = crate::icmp::inject_checksum(s, checksum_v6_spec(src, dst, s));
            (0xFFFF - fold_sum(
                pseudo_header_sum(src, dst, t.len() as int) + crate::icmp::sum_words(t),
            )) as u16 == 0
        }),
{
    lemma_pseudo_header_sum_nonneg(src, dst, s.len() as int);
    crate::icmp::lemma_checksum_inject(s, pseudo_header_sum(src, dst, s.len() as int));
}

} // verus!
