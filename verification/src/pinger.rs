//! Echo request framing, reply decoding, and the correlation token.
//!
//! The socket work itself is left to the caller; everything here is a
//! function from bytes and plain values to bytes and plain values: building
//! the outgoing frame, recomputing the expected checksum of a delivered
//! message, and decoding the header at the front of a receive buffer.

use vstd::prelude::*;

use crate::addr::Addr;
use crate::buf::{Buffer, MTU};
use crate::error::Error;
use crate::icmp;

verus! {

/// The outcome of a ping: the ICMP message type that came back, from the
/// message itself or from the kernel's extended error.
#[derive(Debug, Clone, Copy, PartialEq, Eq, Structural)]
pub enum Outcome {
    /// An ICMPv4 message type.
    V4(icmp::v4::Type),
    /// An ICMPv6 message type.
    V6(icmp::v6::Type),
}

impl Outcome {
    /// Returns true if the outcome is an echo reply.
    pub fn is_echo_reply(&self) -> (r: bool)
        ensures
            r == (*self == Outcome::V4(icmp::v4::Type(icmp::v4::ECHO_REPLY)) || *self
                == Outcome::V6(icmp::v6::Type(icmp::v6::ECHO_REPLY))),
    {
        match self {
            Outcome::V4(ty) => ty.0 == icmp::v4::ECHO_REPLY,
            Outcome::V6(ty) => ty.0 == icmp::v6::ECHO_REPLY,
        }
    }
}

/// The response to a ping.
#[derive(Debug, Clone, Copy, PartialEq, Eq, Structural)]
pub struct Response {
    /// The ICMP message type that came back.
    pub outcome: Outcome,
    /// The ICMP code that came back.
    pub code: u8,
    /// The source address of the delivered message.
    pub source: Addr,
    /// The local destination address the message was delivered to.
    pub dest: Addr,
    /// The identifier field of the delivered header.
    pub identifier: u16,
    /// The sequence field of the delivered header.
    pub sequence: u16,
    /// The checksum carried on the wire.
    pub checksum: u16,
    /// The checksum recomputed over the delivered payload.
    pub expected_checksum: u16,
}

/// A monotonically wrapping 16-bit sequence counter.
pub struct SeqCounter {
    next: u16,
}

impl SeqCounter {
    /// The sequence the next call will hand out.
    pub closed spec fn current(&self) -> u16 {
        self.next
    }

    /// A counter that starts at zero.
    pub fn new() -> (r: SeqCounter)
        ensures
            r.current() == 0,
    {
        SeqCounter { next: 0 }
    }

    /// Hand out the current sequence and step the counter, wrapping.
    pub fn next_seq(&mut self) -> (r: u16)
        ensures
            r == old(self).current(),
            final(self).current() == (old(self).current() + 1) % 0x10000,
    {
        let r = self.next;
        if self.next == 0xFFFF {
            self.next = 0;
        } else {
            self.next = self.next + 1;
        }
        r
    }
}

/// The wire bytes of an echo request: an 8-byte header with the echo
/// request type for the family, code zero, checksum and identifier zero
/// (the kernel fills the checksum), the sequence big-endian, then the
/// payload.
pub open spec fn echo_request_bytes(v6: bool, sequence: u16, payload: Seq<u8>) -> Seq<u8> {
    icmp::v4::header_bytes_spec(
        if v6 {
            icmp::v6::ECHO_REQUEST
        } else {
            icmp::v4::ECHO_REQUEST
        },
        0,
        0,
        0,
        sequence,
    ) + payload
}

/// Frame an echo request into `buf`: clear it, then write the header and
/// the payload.
pub fn build_echo_request(v6: bool, sequence: u16, payload: &[u8], buf: &mut Buffer)
    requires
        old(buf).wf(),
        payload@.len() + 8 <= MTU,
    ensures
        final(buf).wf(),
        final(buf).read_pos() == 0,
        final(buf).bytes() == echo_request_bytes(v6, sequence, payload@),
{
    buf.clear();
    let mut header = icmp::v4::Header::zeroed();
    if v6 {
        header.ty = icmp::v4::Type(icmp::v6::ECHO_REQUEST);
    } else {
        header.ty = icmp::v4::Type(icmp::v4::ECHO_REQUEST);
    }
    header.set_sequence(sequence);
    let header_bytes = header.as_bytes();
    proof {
        assert(header_bytes@.len() == 8);
    }
    buf.extend_from_slice(header_bytes.as_slice());
    proof {
        assert(buf.bytes() =~= header_bytes@);
    }
    buf.extend_from_slice(payload);
    proof {
        assert(buf.bytes() =~= header_bytes@ + payload@);
        assert(buf.bytes() =~= echo_request_bytes(v6, sequence, payload@));
    }
}

/// The value of eight bytes read as one big-endian 64-bit word.
pub open spec fn be64_spec(s: Seq<u8>) -> int {
    s[0] * 0x100_0000_0000_0000 + s[1] * 0x1_0000_0000_0000 + s[2] * 0x100_0000_0000 + s[3]
        * 0x1_0000_0000 + s[4] * 0x100_0000 + s[5] * 0x1_0000 + s[6] * 0x100 + s[7]
}

/// The eight big-endian bytes of a 64-bit token.
pub open spec fn token_bytes_spec(token: u64) -> Seq<u8> {
    seq![
        (token / 0x100_0000_0000_0000) as u8,
        ((token / 0x1_0000_0000_0000) % 0x100) as u8,
        ((token / 0x100_0000_0000) % 0x100) as u8,
        ((token / 0x1_0000_0000) % 0x100) as u8,
        ((token / 0x100_0000) % 0x100) as u8,
        ((token / 0x1_0000) % 0x100) as u8,
        ((token / 0x100) % 0x100) as u8,
        (token % 0x100) as u8,
    ]
}

/// Encode a correlation token as its eight big-endian payload bytes.
pub fn token_bytes(token: u64) -> (r: Vec<u8>)
    ensures
        r@ == token_bytes_spec(token),
        r@.len() == 8,
{
    let mut r: Vec<u8> = Vec::new();
    r.push((token / 0x100_0000_0000_0000) as u8);
    r.push(((token / 0x1_0000_0000_0000) % 0x100) as u8);
    r.push(((token / 0x100_0000_0000) % 0x100) as u8);
    r.push(((token / 0x1_0000_0000) % 0x100) as u8);
    r.push(((token / 0x100_0000) % 0x100) as u8);
    r.push(((token / 0x1_0000) % 0x100) as u8);
    r.push(((token / 0x100) % 0x100) as u8);
    r.push((token % 0x100) as u8);
    proof {
        assert(r@ =~= token_bytes_spec(token));
    }
    r
}

/// Decoding the eight big-endian bytes of a token yields the token back.
pub proof fn lemma_token_round_trip(token: u64)
    ensures
        be64_spec(token_bytes_spec(token)) == token,
{
    let t = token as int;
    vstd::arithmetic::div_mod::lemma_fundamental_div_mod(t, 0x100_0000_0000_0000);
    vstd::arithmetic::div_mod::lemma_breakdown(t, 0x1_0000_0000_0000, 0x100);
    vstd::arithmetic::div_mod::lemma_breakdown(t, 0x100_0000_0000, 0x100);
    vstd::arithmetic::div_mod::lemma_breakdown(t, 0x1_0000_0000, 0x100);
    vstd::arithmetic::div_mod::lemma_breakdown(t, 0x100_0000, 0x100);
    vstd::arithmetic::div_mod::lemma_breakdown(t, 0x1_0000, 0x100);
    vstd::arithmetic::div_mod::lemma_breakdown(t, 0x100, 0x100);
    assert(t / 0x100_0000_0000_0000 < 0x100) by (nonlinear_arith)
        requires
            0 <= t < 0x1_0000_0000_0000_0000,
    ;
}

/// Read the eight-byte correlation token from the front of the buffer.
pub fn read_token(buf: &mut Buffer) -> (r: Result<u64, Error>)
    requires
        old(buf).wf(),
    ensures
        final(buf).wf(),
        old(buf).bytes().len() >= 8 ==> {
            &&& r is Ok
            &&& r->Ok_0 == be64_spec(old(buf).bytes().take(8))
            &&& final(buf).bytes() == old(buf).bytes().skip(8)
        },
        old(buf).bytes().len() < 8 ==> r is Err && *final(buf) == *old(buf),
{
    let bytes = match buf.read(8) {
        Ok(bytes) => bytes,
        Err(e) => {
            return Err(e);
        },
    };
    let t: u64 = (bytes[0] as u64) * 0x100_0000_0000_0000 + (bytes[1] as u64)
        * 0x1_0000_0000_0000 + (bytes[2] as u64) * 0x100_0000_0000 + (bytes[3] as u64)
        * 0x1_0000_0000 + (bytes[4] as u64) * 0x100_0000 + (bytes[5] as u64) * 0x1_0000 + (
    bytes[6] as u64) * 0x100 + (bytes[7] as u64);
    Ok(t)
}

/// The response decoded from the wire bytes at the front of a buffer.
pub open spec fn decoded_response(
    bytes: Seq<u8>,
    source: Addr,
    dest: Addr,
    expected_checksum: u16,
) -> Response {
    Response {
        outcome: if source is V4 {
            Outcome::V4(icmp::v4::Type(bytes[0]))
        } else {
            Outcome::V6(icmp::v6::Type(bytes[0]))
        },
        code: bytes[1],
        source,
        dest,
        identifier: (bytes[4] * 0x100 + bytes[5]) as u16,
        sequence: (bytes[6] * 0x100 + bytes[7]) as u16,
        checksum: (bytes[2] * 0x100 + bytes[3]) as u16,
        expected_checksum,
    }
}

/// Decode the ICMP header at the front of the buffer into a response,
/// consuming it; the payload stays in the buffer for the caller.
pub fn decode_response(
    buf: &mut Buffer,
    source: Addr,
    dest: Addr,
    expected_checksum: u16,
) -> (r: Result<Response, Error>)
    requires
        old(buf).wf(),
    ensures
        final(buf).wf(),
        old(buf).bytes().len() >= 8 ==> {
            &&& r is Ok
            &&& r->Ok_0 == decoded_response(old(buf).bytes(), source, dest, expected_checksum)
            &&& final(buf).bytes() == old(buf).bytes().skip(8)
        },
        old(buf).bytes().len() < 8 ==> {
            &&& r == Result::<Response, Error>::Err(crate::buf::read_err(*old(buf), 8))
            &&& *final(buf) == *old(buf)
        },
{
    let bytes = match buf.read(8) {
        Ok(bytes) => bytes,
        Err(e) => {
            return Err(e);
        },
    };
    let arr = [
        bytes[0],
        bytes[1],
        bytes[2],
        bytes[3],
        bytes[4],
        bytes[5],
        bytes[6],
        bytes[7],
    ];
    let (outcome, code, checksum, identifier, sequence) = match source {
        Addr::V4(_) => {
            let header = icmp::v4::Header::from_array(arr);
            (
                Outcome::V4(header.ty),
                header.code,
                header.checksum(),
                header.identifier(),
                header.sequence(),
            )
        },
        Addr::V6(_) => {
            let header = icmp::v6::Header::from_array(arr);
            (
                Outcome::V6(header.ty),
                header.code,
                header.checksum(),
                header.identifier(),
                header.sequence(),
            )
        },
    };
    Ok(
        Response {
            outcome,
            code,
            source,
            dest,
            identifier,
            sequence,
            checksum,
            expected_checksum,
        },
    )
}

/// What `finish_recv` returns for a given delivery, as a value.
pub open spec fn finish_recv_result(
    bytes: Seq<u8>,
    source: Addr,
    dest: Option<Addr>,
    readable: bool,
    err_outcome: Option<Outcome>,
    err_code: u8,
) -> Result<Response, Error> {
    if dest is None {
        Result::Err(Error::RecvMissingDestinationAddress)
    } else {
        let d = dest->0;
        if readable {
            let expected = if d is V6 && source is V6 {
                icmp::v6::checksum_v6_spec(d->V6_0, source->V6_0, bytes)
            } else {
                icmp::checksum_seq_spec(bytes)
            };
            if bytes.len() >= 8 {
                Result::Ok(decoded_response(bytes, source, d, expected))
            } else {
                Result::Err(
                    Error::BufferTooSmall { actual: bytes.len() as usize, needed: 8 },
                )
            }
        } else {
            if err_outcome is None {
                Result::Err(Error::RecvErrorMissingOutcome)
            } else if bytes.len() >= 8 {
                Result::Ok(
                    Response {
                        outcome: err_outcome->0,
                        code: err_code,
                        source,
                        dest: d,
                        identifier: 0,
                        sequence: 0,
                        checksum: 0,
                        expected_checksum: 0,
                    },
                )
            } else {
                Result::Err(
                    Error::BufferTooSmall { actual: bytes.len() as usize, needed: 8 },
                )
            }
        }
    }
}

/// Turn one delivery from the socket into a response.
///
/// For an ordinary readable delivery the checksum is recomputed over the
/// delivered bytes, with the IPv6 pseudo-header when both addresses are
/// IPv6, and the header at the front of the buffer is decoded. For an
/// error-queue delivery the extended-error outcome and code stand in for
/// the message type, the original outgoing header is consumed so the
/// embedded payload can still be read, and the header fields are reported
/// as zero.
pub fn finish_recv(
    buf: &mut Buffer,
    source: Addr,
    dest: Option<Addr>,
    readable: bool,
    err_outcome: Option<Outcome>,
    err_code: u8,
) -> (r: Result<Response, Error>)
    requires
        old(buf).wf(),
        old(buf).read_pos() == 0,
    ensures
        final(buf).wf(),
        r == finish_recv_result(
            old(buf).bytes(),
            source,
            dest,
            readable,
            err_outcome,
            err_code,
        ),
        r is Ok ==> final(buf).bytes() == old(buf).bytes().skip(8),
{
    proof {
        buf.lemma_wf_bounds();
    }
    let dest = match dest {
        Some(dest) => dest,
        None => {
            return Err(Error::RecvMissingDestinationAddress);
        },
    };
    if readable {
        let window = buf.as_bytes();
        let expected = match (&dest, &source) {
            (Addr::V6(d), Addr::V6(s)) => icmp::v6::checksum(*d, *s, window.as_slice()),
            _ => icmp::v4::checksum(window.as_slice()),
        };
        match decode_response(buf, source, dest, expected) {
            Ok(r) => Ok(r),
            Err(e) => Err(e),
        }
    } else {
        let outcome = match err_outcome {
            Some(outcome) => outcome,
            None => {
                return Err(Error::RecvErrorMissingOutcome);
            },
        };
        match decode_response(buf, source, dest, 0) {
            Ok(_) => Ok(
                Response {
                    outcome,
                    code: err_code,
                    source,
                    dest,
                    identifier: 0,
                    sequence: 0,
                    checksum: 0,
                    expected_checksum: 0,
                },
            ),
            Err(e) => Err(e),
        }
    }
}

} // verus!
