//! An MTU-sized staging buffer for sending and receiving datagrams.
//!
//! The buffer keeps two positions: `init` bytes from the start have been
//! written, and `at` of those have already been consumed by reads, with
//! `0 <= at <= init <= MTU`. Writes append at `init`; reads march `at`
//! forward; `clear` rewinds both.

use vstd::prelude::*;

use crate::error::Error;

verus! {

/// The buffer capacity: the maximum transmission unit.
pub const MTU: usize = 1500;

/// One truncating append: `data` is appended to `bytes`, cut off at the
/// buffer capacity.
pub open spec fn extend_model(bytes: Seq<u8>, data: Seq<u8>) -> Seq<u8> {
    if data.len() <= MTU - bytes.len() {
        bytes + data
    } else {
        bytes + data.take(MTU - bytes.len())
    }
}

/// The result of appending each chunk in turn to an empty buffer.
pub open spec fn apply_extends(chunks: Seq<Seq<u8>>) -> Seq<u8>
    decreases chunks.len(),
{
    if chunks.len() == 0 {
        Seq::empty()
    } else {
        extend_model(apply_extends(chunks.drop_last()), chunks.last())
    }
}

/// The concatenation of all chunks.
pub open spec fn concat_all(chunks: Seq<Seq<u8>>) -> Seq<u8>
    decreases chunks.len(),
{
    if chunks.len() == 0 {
        Seq::empty()
    } else {
        concat_all(chunks.drop_last()) + chunks.last()
    }
}

/// The total length of all chunks.
pub open spec fn total_len(chunks: Seq<Seq<u8>>) -> int
    decreases chunks.len(),
{
    if chunks.len() == 0 {
        0
    } else {
        total_len(chunks.drop_last()) + chunks.last().len()
    }
}

/// As long as the chunks appended to a fresh buffer fit in its capacity
/// together, no append truncates: the buffer holds exactly their
/// concatenation.
pub proof fn lemma_extends_concat(chunks: Seq<Seq<u8>>)
    requires
        total_len(chunks) <= MTU,
    ensures
        apply_extends(chunks) == concat_all(chunks),
        apply_extends(chunks).len() == total_len(chunks),
    decreases chunks.len(),
{
    if chunks.len() > 0 {
        lemma_extends_concat(chunks.drop_last());
    }
}

/// The error a read of `n` bytes past the initialized length reports: how
/// many bytes are initialized, and up to which byte the read would have
/// run.
pub open spec fn read_err(b: Buffer, n: usize) -> Error {
    Error::BufferTooSmall {
        actual: b.init_len(),
        needed: if b.read_pos() + n <= usize::MAX {
            (b.read_pos() + n) as usize
        } else {
            usize::MAX
        },
    }
}

/// A buffer sized to the maximum transmission unit (MTU).
pub struct Buffer {
    /// Backing storage; always exactly `MTU` bytes long.
    buf: Vec<u8>,
    /// Position being read.
    at: usize,
    /// Length that has been initialized by a write.
    init: usize,
}

impl Buffer {
    /// The positions are in range and the backing storage is full-sized.
    pub closed spec fn wf(&self) -> bool {
        self.at <= self.init <= MTU && self.buf@.len() == MTU
    }

    /// The position being read.
    pub closed spec fn read_pos(&self) -> usize {
        self.at
    }

    /// How many bytes from the start have been written.
    pub closed spec fn init_len(&self) -> usize {
        self.init
    }

    /// The bytes written so far that have not been consumed by a read.
    pub closed spec fn bytes(&self) -> Seq<u8> {
        self.buf@.subrange(self.at as int, self.init as int)
    }

    /// All bytes written so far, consumed or not.
    pub closed spec fn written(&self) -> Seq<u8> {
        self.buf@.take(self.init as int)
    }

    /// A well-formed buffer's positions are bounded by the capacity, and its
    /// byte windows have the matching lengths.
    pub proof fn lemma_wf_bounds(&self)
        requires
            self.wf(),
        ensures
            self.read_pos() <= self.init_len() <= MTU,
            self.bytes().len() == self.init_len() - self.read_pos(),
            self.written().len() == self.init_len(),
    {
    }

    /// Create a new MTU-sized buffer.
    pub fn new() -> (r: Buffer)
        ensures
            r.wf(),
            r.read_pos() == 0,
            r.init_len() == 0,
            r.bytes() == Seq::<u8>::empty(),
            r.written() == Seq::<u8>::empty(),
    {
        let r = Buffer { buf: vec![0u8; MTU], at: 0, init: 0 };
        proof {
            assert(r.bytes() =~= Seq::<u8>::empty());
            assert(r.written() =~= Seq::<u8>::empty());
        }
        r
    }

    /// Clear the buffer.
    pub fn clear(&mut self)
        requires
            old(self).wf(),
        ensures
            final(self).wf(),
            final(self).read_pos() == 0,
            final(self).init_len() == 0,
            final(self).bytes() == Seq::<u8>::empty(),
            final(self).written() == Seq::<u8>::empty(),
            final(self).storage() == old(self).storage(),
    {
        self.at = 0;
        self.init = 0;
        proof {
            assert(self.bytes() =~= Seq::<u8>::empty());
            assert(self.written() =~= Seq::<u8>::empty());
        }
    }

    /// Advance the initialized length of the buffer by the given amount,
    /// saturating at the capacity. The bytes so marked keep whatever value
    /// the storage already held.
    pub fn advance(&mut self, len: usize)
        requires
            old(self).wf(),
        ensures
            final(self).wf(),
            final(self).init_len() == if old(self).init_len() + len <= MTU {
                old(self).init_len() + len
            } else {
                MTU as int
            },
            final(self).read_pos() == old(self).read_pos(),
            final(self).written() == final(self).storage().take(final(self).init_len() as int),
            final(self).storage() == old(self).storage(),
    {
        if len <= MTU - self.init {
            self.init = self.init + len;
        } else {
            self.init = MTU;
        }
    }

    /// The whole backing storage as a sequence.
    pub closed spec fn storage(&self) -> Seq<u8> {
        self.buf@
    }

    /// Get the remaining initialized bytes of the buffer, from the read
    /// position up to the initialized length.
    pub fn as_bytes(&self) -> (r: Vec<u8>)
        requires
            self.wf(),
        ensures
            r@ == self.bytes(),
            r@.len() <= MTU,
    {
        let mut r: Vec<u8> = Vec::new();
        let mut i: usize = self.at;
        while i < self.init
            invariant
                self.wf(),
                self.at <= i <= self.init,
                r@ == self.buf@.subrange(self.at as int, i as int),
            decreases self.init - i,
        {
            r.push(self.buf[i]);
            i = i + 1;
            proof {
                assert(r@ =~= self.buf@.subrange(self.at as int, i as int));
            }
        }
        proof {
            assert(r@ =~= self.bytes());
        }
        r
    }

    /// Get the remaining number of uninitialized bytes in the buffer.
    pub fn remaining_mut(&self) -> (r: usize)
        requires
            self.wf(),
        ensures
            r == MTU - self.init_len(),
    {
        MTU - self.init
    }

    /// Read `n` bytes from the current read position, advancing it.
    ///
    /// Fails with [`Error::BufferTooSmall`] when fewer than `n` initialized
    /// bytes remain; the failed read does not move the read position.
    pub fn read(&mut self, n: usize) -> (r: Result<Vec<u8>, Error>)
        requires
            old(self).wf(),
        ensures
            final(self).wf(),
            final(self).init_len() == old(self).init_len(),
            final(self).written() == old(self).written(),
            n <= old(self).bytes().len() ==> {
                &&& r is Ok
                &&& r->Ok_0@ == old(self).bytes().take(n as int)
                &&& final(self).bytes() == old(self).bytes().skip(n as int)
                &&& final(self).read_pos() == old(self).read_pos() + n
            },
            n > old(self).bytes().len() ==> {
                &&& r == Result::<Vec<u8>, Error>::Err(read_err(*old(self), n))
                &&& *final(self) == *old(self)
            },
    {
        if n > self.init - self.at {
            let needed = if n <= usize::MAX - self.at {
                self.at + n
            } else {
                usize::MAX
            };
            return Err(Error::BufferTooSmall { actual: self.init, needed });
        }
        let end = self.at + n;
        let mut r: Vec<u8> = Vec::new();
        let mut i: usize = self.at;
        while i < end
            invariant
                self.wf(),
                self.at <= i <= end,
                end == self.at + n,
                end <= self.init,
                r@ == self.buf@.subrange(self.at as int, i as int),
            decreases end - i,
        {
            r.push(self.buf[i]);
            i = i + 1;
            proof {
                assert(r@ =~= self.buf@.subrange(self.at as int, i as int));
            }
        }
        proof {
            assert(r@ =~= old(self).bytes().take(n as int));
        }
        self.at = end;
        proof {
            assert(self.bytes() =~= old(self).bytes().skip(n as int));
        }
        Ok(r)
    }

    /// Extend the buffer by copying data from the given slice, silently
    /// truncating to the remaining capacity.
    pub fn extend_from_slice(&mut self, data: &[u8])
        requires
            old(self).wf(),
        ensures
            final(self).wf(),
            final(self).read_pos() == old(self).read_pos(),
            final(self).written() == extend_model(old(self).written(), data@),
            final(self).init_len() == extend_model(old(self).written(), data@).len(),
            final(self).bytes() == old(self).bytes() + extend_model(
                old(self).written(),
                data@,
            ).skip(old(self).init_len() as int),
    {
        let len = if data.len() <= MTU - self.init {
            data.len()
        } else {
            MTU - self.init
        };
        let mut i: usize = 0;
        while i < len
            invariant
                self.at == old(self).at,
                self.init == old(self).init,
                self.wf(),
                i <= len,
                len <= data@.len(),
                self.init + len <= MTU,
                self.buf@.len() == MTU,
                self.buf@ == old(self).buf@.map(
                    |k: int, b: u8|
                        if old(self).init <= k < old(self).init + i {
                            data@[k - old(self).init]
                        } else {
                            b
                        },
                ),
            decreases len - i,
        {
            self.buf.set(self.init + i, data[i]);
            i = i + 1;
            proof {
                assert(self.buf@ =~= old(self).buf@.map(
                    |k: int, b: u8|
                        if old(self).init <= k < old(self).init + i {
                            data@[k - old(self).init]
                        } else {
                            b
                        },
                ));
            }
        }
        self.init = self.init + len;
        proof {
            assert(self.written() =~= extend_model(old(self).written(), data@));
            assert(self.bytes() =~= old(self).bytes() + extend_model(
                old(self).written(),
                data@,
            ).skip(old(self).init_len() as int));
        }
    }
}

} // verus!
