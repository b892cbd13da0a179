//! Wake-on-LAN magic packets: a fixed-format UDP broadcast payload.

use vstd::prelude::*;

verus! {

/// The wire bytes of a magic packet for a MAC address: six `0xFF` bytes,
/// then the address sixteen times.
pub open spec fn magic_bytes(mac: Seq<u8>) -> Seq<u8>
    recommends
        mac.len() == 6,
{
    Seq::new(102, |i: int| if i < 6 { 0xFF } else { mac[(i - 6) % 6] })
}

/// A Wake-on-LAN magic packet for one MAC address.
pub struct MagicPacket {
    /// Six bytes of `0xFF`.
    header: [u8; 6],
    /// Sixteen repetitions of the target MAC address.
    dest: [[u8; 6]; 16],
}

impl MagicPacket {
    /// The MAC address the packet wakes.
    pub closed spec fn mac(&self) -> Seq<u8> {
        self.dest@[0]@
    }

    /// The packet's parts are exactly the fixed header and sixteen copies
    /// of the address.
    pub closed spec fn wf(&self) -> bool {
        &&& forall|i: int| 0 <= i < 6 ==> self.header@[i] == 0xFF
        &&& forall|k: int| 0 <= k < 16 ==> #[trigger] self.dest@[k]@ == self.mac()
    }

    /// Creates a new `MagicPacket` intended for `mac_address` (but doesn't
    /// send it yet).
    pub fn new(mac_address: [u8; 6]) -> (r: MagicPacket)
        ensures
            r.wf(),
            r.mac() == mac_address@,
    {
        let header = [0xFFu8, 0xFF, 0xFF, 0xFF, 0xFF, 0xFF];
        let dest = [
            mac_address,
            mac_address,
            mac_address,
            mac_address,
            mac_address,
            mac_address,
            mac_address,
            mac_address,
            mac_address,
            mac_address,
            mac_address,
            mac_address,
            mac_address,
            mac_address,
            mac_address,
            mac_address,
        ];
        MagicPacket { header, dest }
    }

    /// The packet as its 102 wire bytes.
    pub fn as_bytes(&self) -> (r: Vec<u8>)
        requires
            self.wf(),
        ensures
            r@ == magic_bytes(self.mac()),
            r@.len() == 102,
    {
        let mut r: Vec<u8> = Vec::new();
        let mut i: usize = 0;
        while i < 6
            invariant
                self.wf(),
                0 <= i <= 6,
                r@.len() == i,
                forall|j: int| 0 <= j < i ==> r@[j] == 0xFF,
            decreases 6 - i,
        {
            r.push(self.header[i]);
            i = i + 1;
        }
        let mut k: usize = 0;
        while k < 16
            invariant
                self.wf(),
                0 <= k <= 16,
                r@.len() == 6 + 6 * k,
                forall|j: int| 0 <= j < 6 ==> r@[j] == 0xFF,
                forall|j: int| 6 <= j < r@.len() ==> r@[j] == self.mac()[(j - 6) % 6],
            decreases 16 - k,
        {
            let mut m: usize = 0;
            while m < 6
                invariant
                    self.wf(),
                    0 <= m <= 6,
                    0 <= k < 16,
                    r@.len() == 6 + 6 * k + m,
                    forall|j: int| 0 <= j < 6 ==> r@[j] == 0xFF,
                    forall|j: int| 6 <= j < r@.len() ==> r@[j] == self.mac()[(j - 6) % 6],
                decreases 6 - m,
            {
                proof {
                    assert(self.dest@[k as int]@ == self.mac());
                    assert((6 + 6 * k + m - 6) % 6 == m) by (nonlinear_arith)
                        requires
                            0 <= m < 6,
                            0 <= k,
                    ;
                }
                r.push(self.dest[k][m]);
                m = m + 1;
            }
            k = k + 1;
        }
        proof {
            assert(r@ =~= magic_bytes(self.mac()));
        }
        r
    }
}

} // verus!
