//! Hosts on the network, as the probe scheduler consumes them.

use vstd::prelude::*;

use vstd::utf8::encode_utf8;

use crate::addr::Addr;
use crate::pinger::{token_bytes, token_bytes_spec};

verus! {

/// The XXH3 128-bit digest of a byte sequence, as twox_hash computes it:
/// a function of the input bytes alone.
pub uninterp spec fn xxh3_128_of(data: Seq<u8>) -> u128;

/// Relies on twox_hash's unseeded XXH3-128 one-shot digest: the result
/// depends on the input bytes alone.
#[verifier::external_body]
fn xxh3_128(data: &Vec<u8>) -> (r: u128)
    ensures
        r == xxh3_128_of(data@),
{
    twox_hash::xxhash3_128::Hasher::oneshot(data.as_slice())
}

/// The tag preceding each name in the id stream.
pub const NAME_TAG: u8 = 0x01;

/// The tag preceding each hardware address in the id stream.
pub const MAC_TAG: u8 = 0x02;

/// Each item preceded by a tag byte, concatenated.
pub open spec fn tagged_concat(items: Seq<Seq<u8>>, tag: u8) -> Seq<u8>
    decreases items.len(),
{
    if items.len() == 0 {
        Seq::empty()
    } else {
        tagged_concat(items.drop_last(), tag) + seq![tag] + items.last()
    }
}

/// The canonical byte stream a host's identity is the digest of: the name
/// count as eight big-endian bytes, each name tagged, then the hardware
/// address count and each address tagged.
pub open spec fn host_stream(names: Seq<Seq<u8>>, macs: Seq<Seq<u8>>) -> Seq<u8> {
    token_bytes_spec(names.len() as u64) + tagged_concat(names, NAME_TAG) + token_bytes_spec(
        macs.len() as u64,
    ) + tagged_concat(macs, MAC_TAG)
}

/// Build the canonical id stream from encoded names and hardware
/// addresses.
pub fn host_stream_bytes(names: &Vec<Vec<u8>>, macs: &Vec<[u8; 6]>) -> (r: Vec<u8>)
    ensures
        r@ == host_stream(
            names@.map_values(|n: Vec<u8>| n@),
            macs@.map_values(|m: [u8; 6]| m@),
        ),
{
    let ghost names_seq = names@.map_values(|n: Vec<u8>| n@);
    let ghost macs_seq = macs@.map_values(|m: [u8; 6]| m@);
    let mut out = token_bytes(names.len() as u64);
    let n = names.len();
    let mut i: usize = 0;
    while i < n
        invariant
            n == names@.len(),
            0 <= i <= n,
            names_seq == names@.map_values(|v: Vec<u8>| v@),
            out@ == token_bytes_spec(n as u64) + tagged_concat(names_seq.take(i as int), NAME_TAG),
        decreases n - i,
    {
        out.push(NAME_TAG);
        let name = &names[i];
        out.extend_from_slice(name.as_slice());
        i = i + 1;
        proof {
            assert(names_seq.take(i as int).drop_last() =~= names_seq.take(i - 1));
            assert(names_seq.take(i as int).last() == names_seq[i - 1]);
            assert(out@ =~= token_bytes_spec(n as u64) + tagged_concat(
                names_seq.take(i as int),
                NAME_TAG,
            ));
        }
    }
    proof {
        assert(names_seq.take(n as int) =~= names_seq);
    }
    let macs_len = token_bytes(macs.len() as u64);
    out.extend_from_slice(macs_len.as_slice());
    let m = macs.len();
    let mut k: usize = 0;
    while k < m
        invariant
            n == names@.len(),
            m == macs@.len(),
            0 <= k <= m,
            names_seq == names@.map_values(|v: Vec<u8>| v@),
            macs_seq == macs@.map_values(|v: [u8; 6]| v@),
            out@ == token_bytes_spec(n as u64) + tagged_concat(names_seq, NAME_TAG)
                + token_bytes_spec(m as u64) + tagged_concat(macs_seq.take(k as int), MAC_TAG),
        decreases m - k,
    {
        out.push(MAC_TAG);
        let mac = macs[k];
        let mut j: usize = 0;
        let ghost mid = out@;
        while j < 6
            invariant
                0 <= j <= 6,
                out@ == mid + mac@.take(j as int),
            decreases 6 - j,
        {
            out.push(mac[j]);
            j = j + 1;
            proof {
                assert(out@ =~= mid + mac@.take(j as int));
            }
        }
        k = k + 1;
        proof {
            assert(mac@.take(6) =~= mac@);
            assert(macs_seq.take(k as int).drop_last() =~= macs_seq.take(k - 1));
            assert(macs_seq.take(k as int).last() == macs_seq[k - 1]);
            assert(out@ =~= token_bytes_spec(n as u64) + tagged_concat(names_seq, NAME_TAG)
                + token_bytes_spec(m as u64) + tagged_concat(macs_seq.take(k as int), MAC_TAG));
        }
    }
    proof {
        assert(macs_seq.take(m as int) =~= macs_seq);
        assert(out@ =~= host_stream(names_seq, macs_seq));
    }
    out
}

/// The host identity derived from encoded names and hardware addresses:
/// the digest of their canonical stream. Identical content yields the
/// identical id across restarts.
pub fn content_id(names: &Vec<Vec<u8>>, macs: &Vec<[u8; 6]>) -> (r: u128)
    ensures
        r == xxh3_128_of(
            host_stream(
                names@.map_values(|n: Vec<u8>| n@),
                macs@.map_values(|m: [u8; 6]| m@),
            ),
        ),
{
    let stream = host_stream_bytes(names, macs);
    xxh3_128(&stream)
}

/// Representation of a host on the network: a stable content-derived id,
/// its names and hardware addresses, and whether it is to be left alone.
pub struct Host {
    /// The host's identity: stable across restarts for unchanged content.
    pub id: u128,
    /// The host's names, sorted and deduplicated.
    pub names: Vec<String>,
    /// The host's hardware addresses, sorted and deduplicated.
    pub macs: Vec<[u8; 6]>,
    /// The name to show for the host, when one is preferred.
    pub preferred_name: Option<String>,
    /// Whether the host is excluded from monitoring.
    pub ignore: bool,
    /// The host's last known addresses, if any.
    pub addresses: Vec<Addr>,
}

impl Host {
    /// The names to resolve for this host: only the preferred name when
    /// one is set, otherwise all its names.
    pub fn display_names(&self) -> (r: Vec<String>)
        ensures
            self.preferred_name is Some ==> r@.len() == 1 && r@[0]@ == self.preferred_name->0@,
            self.preferred_name is None ==> r@.len() == self.names@.len() && forall|i: int|
                0 <= i < r@.len() ==> (#[trigger] r@[i])@ == self.names@[i]@,
    {
        let mut r: Vec<String> = Vec::new();
        match &self.preferred_name {
            Some(preferred) => {
                r.push(preferred.clone());
            },
            None => {
                let n = self.names.len();
                let mut i: usize = 0;
                while i < n
                    invariant
                        n == self.names@.len(),
                        0 <= i <= n,
                        r@.len() == i,
                        forall|j: int| 0 <= j < i ==> (#[trigger] r@[j])@ == self.names@[j]@,
                    decreases n - i,
                {
                    let name = self.clone_name(i);
                    r.push(name);
                    i = i + 1;
                }
            },
        }
        r
    }

    /// Clone one of the host's names.
    fn clone_name(&self, i: usize) -> (r: String)
        requires
            i < self.names@.len(),
        ensures
            r@ == self.names@[i as int]@,
    {
        self.names[i].clone()
    }

    /// Derive the host's id from its content: the digest of the canonical
    /// stream of its UTF-8-encoded names and its hardware addresses, via
    /// [`content_id`]. Nothing but the id changes, and identical content
    /// yields the identical id across restarts.
    pub fn build_id(&mut self)
        ensures
            final(self).id == xxh3_128_of(
                host_stream(
                    old(self).names@.map_values(|n: String| encode_utf8(n@)),
                    old(self).macs@.map_values(|m: [u8; 6]| m@),
                ),
            ),
            final(self).names == old(self).names,
            final(self).macs == old(self).macs,
            final(self).preferred_name == old(self).preferred_name,
            final(self).ignore == old(self).ignore,
            final(self).addresses == old(self).addresses,
    {
        let mut encoded: Vec<Vec<u8>> = Vec::new();
        let n = self.names.len();
        let mut i: usize = 0;
        while i < n
            invariant
                n == self.names@.len(),
                0 <= i <= n,
                *self == *old(self),
                encoded@.len() == i,
                forall|k: int|
                    0 <= k < i ==> (#[trigger] encoded@[k])@ == encode_utf8(self.names@[k]@),
            decreases n - i,
        {
            let bytes = self.names[i].as_str().as_bytes();
            proof {
                assert(bytes@ == encode_utf8(self.names@[i as int]@));
            }
            let mut one: Vec<u8> = Vec::new();
            one.extend_from_slice(bytes);
            proof {
                assert(one@ =~= encode_utf8(self.names@[i as int]@));
            }
            encoded.push(one);
            i = i + 1;
        }
        proof {
            assert(encoded@.map_values(|v: Vec<u8>| v@) =~= self.names@.map_values(
                |name: String| encode_utf8(name@),
            ));
        }
        self.id = content_id(&encoded, &self.macs);
    }
}

/// Builder for the host monitoring state: which files to watch for
/// hardware addresses and names.
pub struct Builder {
    ether_paths: Vec<String>,
    host_paths: Vec<String>,
}

impl Builder {
    /// The watched ethers files.
    pub closed spec fn ether_seq(&self) -> Seq<String> {
        self.ether_paths@
    }

    /// The watched hosts files.
    pub closed spec fn host_seq(&self) -> Seq<String> {
        self.host_paths@
    }

    /// A builder with no files.
    pub fn new() -> (r: Builder)
        ensures
            r.ether_seq().len() == 0,
            r.host_seq().len() == 0,
    {
        Builder { ether_paths: Vec::new(), host_paths: Vec::new() }
    }

    /// Add an ethers file to monitor.
    pub fn add_ethers_path(&mut self, path: &str)
        ensures
            final(self).ether_seq().len() == old(self).ether_seq().len() + 1,
            final(self).ether_seq()[old(self).ether_seq().len() as int]@ == path@,
            forall|i: int|
                0 <= i < old(self).ether_seq().len() ==> #[trigger] final(self).ether_seq()[i]
                    == old(self).ether_seq()[i],
            final(self).host_seq() == old(self).host_seq(),
    {
        self.ether_paths.push(path.to_owned());
    }

    /// Add a hosts file to monitor.
    pub fn add_hosts_path(&mut self, path: &str)
        ensures
            final(self).host_seq().len() == old(self).host_seq().len() + 1,
            final(self).host_seq()[old(self).host_seq().len() as int]@ == path@,
            forall|i: int|
                0 <= i < old(self).host_seq().len() ==> #[trigger] final(self).host_seq()[i]
                    == old(self).host_seq()[i],
            final(self).ether_seq() == old(self).ether_seq(),
    {
        self.host_paths.push(path.to_owned());
    }

    /// The watched ethers files, for the monitoring task.
    pub fn ether_paths(&self) -> (r: &Vec<String>)
        ensures
            r@ == self.ether_seq(),
    {
        &self.ether_paths
    }

    /// The watched hosts files, for the monitoring task.
    pub fn host_paths(&self) -> (r: &Vec<String>)
        ensures
            r@ == self.host_seq(),
    {
        &self.host_paths
    }
}

} // verus!
