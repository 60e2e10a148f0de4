//! The kernel-side memory model: one flat byte-addressed arena.
//!
//! Addresses are offsets into the arena's bytes; the pointers the codec
//! embeds in memory (slice headers, array backing pointers) are 32-bit
//! offsets into the same arena.  `alloc` is the caller-supplied single-shot
//! allocator of the protocol: it never frees, returns 8-byte-aligned
//! storage (aligned for every payload scalar), and fails exactly when the
//! arena's capacity would be exceeded.  Multibyte scalars are stored in
//! big-endian order, the byte order of the framed transport, so bulk
//! element transfers are byte-for-byte copies.

use vstd::prelude::*;

use crate::tag::{round_up, round_up_spec, lemma_round_up_props};

verus! {

/// The codec's failures.  Structural schema errors (a truncated tag, a
/// missing separator, a `Keyword` or `Object` in a value position) are
/// protocol contract violations excluded by `requires` instead.
#[derive(Debug, PartialEq, Eq)]
pub enum RpcError {
    /// The transport ran out of bytes mid-value.
    UnexpectedEnd,
    /// The arena cannot hold the requested allocation.
    AllocFailed,
}

/// The big-endian bytes of a 32-bit value.
pub open spec fn u32_be_bytes(v: u32) -> Seq<u8> {
    seq![(v >> 24) as u8, (v >> 16) as u8, (v >> 8) as u8, v as u8]
}

/// The 32-bit value read from four big-endian bytes.
pub open spec fn u32_from_be(s: Seq<u8>) -> u32 {
    (((s[0] as u32) << 24) | ((s[1] as u32) << 16) | ((s[2] as u32) << 8) | (s[3] as u32)) as u32
}

/// Writing a 32-bit value and reading it back is the identity.
pub proof fn lemma_u32_be_round_trip(v: u32)
    ensures
        u32_from_be(u32_be_bytes(v)) == v,
{
    assert((((v >> 24) as u8 as u32) << 24) | (((v >> 16) as u8 as u32) << 16) | (((v
        >> 8) as u8 as u32) << 8) | (v as u8 as u32) == v) by (bit_vector);
}

/// A bump allocator over one flat byte-addressed memory.
pub struct Arena {
    bytes: Vec<u8>,
    cap: usize,
    alloc_log: Ghost<Seq<nat>>,
}

impl Arena {
    /// The memory image: every byte allocated so far, in address order.
    pub closed spec fn mem(&self) -> Seq<u8> {
        self.bytes@
    }

    /// The size in bytes the arena may grow to.
    pub closed spec fn capacity(&self) -> nat {
        self.cap as nat
    }

    /// The sizes passed to `alloc`, in call order.
    pub closed spec fn allocs(&self) -> Seq<nat> {
        self.alloc_log@
    }

    /// Addresses stay within 32 bits (with headroom for padding), so they
    /// fit the pointer cells the codec writes into memory.
    pub open spec fn wf(&self) -> bool {
        self.mem().len() <= self.capacity() <= 0xffff_fff0
    }

    /// A fresh, empty arena of the given capacity.
    pub fn new(cap: usize) -> (r: Arena)
        requires
            cap <= 0xffff_fff0,
        ensures
            r.wf(),
            r.mem() == Seq::<u8>::empty(),
            r.capacity() == cap,
            r.allocs() == Seq::<nat>::empty(),
    {
        Arena { bytes: Vec::new(), cap, alloc_log: Ghost(Seq::empty()) }
    }

    /// The number of bytes in use.
    pub fn len(&self) -> (r: usize)
        ensures
            r == self.mem().len(),
    {
        self.bytes.len()
    }

    /// One allocation: pads the arena to an 8-byte boundary, then reserves
    /// `n` zeroed bytes, returning their address.  Fails exactly when the
    /// padded request exceeds the capacity; on failure nothing changes.
    pub fn allocate(&mut self, n: usize) -> (r: Result<usize, RpcError>)
        requires
            old(self).wf(),
        ensures
            final(self).wf(),
            final(self).capacity() == old(self).capacity(),
            r is Ok <==> round_up_spec(old(self).mem().len(), 8) + n <= old(self).capacity(),
            r matches Ok(p) ==> {
                &&& p as nat == round_up_spec(old(self).mem().len(), 8)
                &&& p % 8 == 0
                &&& final(self).mem().len() == p + n
                &&& final(self).mem().subrange(0, old(self).mem().len() as int) == old(self).mem()
                &&& (forall|j: int|
                    old(self).mem().len() <= j < final(self).mem().len() ==> final(self).mem()[j]
                        == 0)
                &&& final(self).allocs() == old(self).allocs().push(n as nat)
            },
            r is Err ==> final(self).mem() == old(self).mem() && final(self).allocs() == old(self).allocs() && r == Err::<usize, RpcError>(RpcError::AllocFailed),
    {
        let len = self.bytes.len();
        proof {
            lemma_round_up_props(len as nat, 8);
        }
        let padded = round_up(len, 8);
        if n > self.cap || padded > self.cap - n {
            return Err(RpcError::AllocFailed);
        }
        let ghost m0 = self.bytes@;
        let ghost cap0 = self.cap;
        let ghost log0 = self.alloc_log@;
        let mut k = len;
        while k < padded
            invariant
                len <= k <= padded,
                padded + n <= cap0 <= 0xffff_fff0,
                self.bytes@.len() == k,
                self.cap == cap0,
                self.alloc_log@ == log0,
                self.bytes@.subrange(0, len as int) == m0,
                m0.len() == len,
                forall|j: int| len <= j < k ==> self.bytes@[j] == 0,
            decreases padded - k,
        {
            self.bytes.push(0);
            proof {
                assert(self.bytes@.subrange(0, len as int) =~= m0);
            }
            k = k + 1;
        }
        let mut i: usize = 0;
        while i < n
            invariant
                i <= n,
                padded + n <= cap0 <= 0xffff_fff0,
                self.bytes@.len() == padded + i,
                self.cap == cap0,
                self.alloc_log@ == log0,
                self.bytes@.subrange(0, len as int) == m0,
                m0.len() == len <= padded,
                forall|j: int| len <= j < padded + i ==> self.bytes@[j] == 0,
            decreases n - i,
        {
            self.bytes.push(0);
            proof {
                assert(self.bytes@.subrange(0, len as int) =~= m0);
            }
            i = i + 1;
        }
        proof {
            self.alloc_log@ = log0.push(n as nat);
        }
        Ok(padded)
    }

    /// One byte read.
    pub fn read_u8(&self, at: usize) -> (r: u8)
        requires
            at < self.mem().len(),
        ensures
            r == self.mem()[at as int],
    {
        self.bytes[at]
    }

    /// One byte write.
    pub fn write_u8(&mut self, at: usize, v: u8)
        requires
            old(self).wf(),
            at < old(self).mem().len(),
        ensures
            final(self).wf(),
            final(self).mem() == old(self).mem().update(at as int, v),
            final(self).capacity() == old(self).capacity(),
            final(self).allocs() == old(self).allocs(),
    {
        self.bytes[at] = v;
    }

    /// A big-endian 32-bit read: the four bytes at `at`, transport order.
    pub fn read_u32(&self, at: usize) -> (r: u32)
        requires
            at + 4 <= self.mem().len(),
        ensures
            r == u32_from_be(self.mem().subrange(at as int, at as int + 4)),
    {
        let n_mem = self.bytes.len();
        let b0 = self.bytes[at];
        let b1 = self.bytes[at + 1];
        let b2 = self.bytes[at + 2];
        let b3 = self.bytes[at + 3];
        proof {
            let s = self.mem().subrange(at as int, at as int + 4);
            assert(s[0] == b0 && s[1] == b1 && s[2] == b2 && s[3] == b3);
        }
        ((b0 as u32) << 24) | ((b1 as u32) << 16) | ((b2 as u32) << 8) | (b3 as u32)
    }

    /// A big-endian 32-bit write: the four bytes at `at` become the value's
    /// transport-order bytes; nothing else changes.
    pub fn write_u32(&mut self, at: usize, v: u32)
        requires
            old(self).wf(),
            at + 4 <= old(self).mem().len(),
        ensures
            final(self).wf(),
            final(self).mem().len() == old(self).mem().len(),
            final(self).mem().subrange(at as int, at as int + 4) == u32_be_bytes(v),
            forall|j: int|
                0 <= j < old(self).mem().len() && !(at <= j < at + 4) ==> final(self).mem()[j]
                    == old(self).mem()[j],
            final(self).capacity() == old(self).capacity(),
            final(self).allocs() == old(self).allocs(),
    {
        self.bytes[at] = (v >> 24) as u8;
        self.bytes[at + 1] = (v >> 16) as u8;
        self.bytes[at + 2] = (v >> 8) as u8;
        self.bytes[at + 3] = v as u8;
        proof {
            assert(self.mem().subrange(at as int, at as int + 4) =~= u32_be_bytes(v));
        }
    }

    /// Copies `n` bytes out of `src` (from `off`) into the arena at `at`;
    /// nothing else changes.
    pub fn write_range(&mut self, at: usize, src: &Vec<u8>, off: usize, n: usize)
        requires
            old(self).wf(),
            at + n <= old(self).mem().len(),
            off + n <= src@.len(),
        ensures
            final(self).wf(),
            final(self).mem().len() == old(self).mem().len(),
            final(self).mem().subrange(at as int, at as int + n) == src@.subrange(
                off as int,
                off as int + n,
            ),
            forall|j: int|
                0 <= j < old(self).mem().len() && !(at <= j < at + n) ==> final(self).mem()[j]
                    == old(self).mem()[j],
            final(self).capacity() == old(self).capacity(),
            final(self).allocs() == old(self).allocs(),
    {
        let ghost m0 = self.bytes@;
        let n_mem = self.bytes.len();
        let n_src = src.len();
        let mut i: usize = 0;
        while i < n
            invariant
                i <= n,
                at + n <= m0.len(),
                off + n <= src@.len(),
                m0.len() == n_mem,
                src@.len() == n_src,
                self.bytes@.len() == m0.len(),
                self.cap == old(self).cap,
                old(self).wf(),
                self.bytes@.len() <= self.cap <= 0xffff_fff0,
                self.alloc_log@ == old(self).alloc_log@,
                forall|j: int| 0 <= j < m0.len() && !(at <= j < at + i) ==> self.bytes@[j] == m0[j],
                forall|j: int| 0 <= j < i ==> #[trigger] self.bytes@[at + j] == src@[off + j],
            decreases n - i,
        {
            let d: usize = at + i;
            let sv: u8 = src[off + i];
            self.bytes[d] = sv;
            i = i + 1;
        }
        proof {
            assert forall|j: int| 0 <= j < n implies #[trigger] self.bytes@[at + j] == src@[off + j] by {}
            assert forall|j: int| 0 <= j < n implies #[trigger] self.mem().subrange(
                at as int,
                at as int + n,
            )[j] == src@.subrange(off as int, off as int + n)[j] by {
                assert(self.mem().subrange(at as int, at as int + n)[j] == self.bytes@[at + j]);
                assert(src@.subrange(off as int, off as int + n)[j] == src@[off + j]);
            }
            assert(self.mem().subrange(at as int, at as int + n) =~= src@.subrange(
                off as int,
                off as int + n,
            ));
        }
    }
}

} // verus!
