//! A bump allocator over one fixed-capacity byte region.
//!
//! Offsets are 32-bit positions inside the region. Offset 0 is never handed
//! out: it serves as the nil offset.

use vstd::prelude::*;
use vstd::slice::slice_subrange;
use crate::codec::{spec_u32_le, spec_u64_le};
use crate::error::ArenaError;

verus! {

/// Whether an allocation of `size` bytes at alignment `align`, with `overflow`
/// bytes of reserve behind it, fits when `allocated` bytes are taken.
pub open spec fn alloc_fits(allocated: nat, cap: nat, size: nat, align: nat, overflow: nat) -> bool {
    allocated + size + align - 1 + overflow <= cap
}

/// The number of bytes by which an allocation advances the arena.
pub open spec fn alloc_padded(size: nat, align: nat) -> nat {
    (size + align - 1) as nat
}

/// The aligned offset that such an allocation returns: the end of the padded
/// block minus `size`, rounded down to a multiple of `align`.
pub open spec fn alloc_offset(allocated: nat, size: nat, align: nat) -> nat {
    let start = allocated + align - 1;
    (start - start % (align as int)) as nat
}

/// A fixed-capacity byte region with a bump allocator.
pub struct Arena {
    data: Vec<u8>,
    allocated: u64,
}

impl View for Arena {
    type V = Seq<u8>;

    /// The bytes of the whole region.
    closed spec fn view(&self) -> Seq<u8> {
        self.data@
    }
}

impl Arena {
    /// The next free offset.
    pub closed spec fn spec_size(&self) -> nat {
        self.allocated as nat
    }

    /// The number of bytes in the region.
    pub closed spec fn spec_capacity(&self) -> nat {
        self.data@.len()
    }

    /// The arena's invariant: the next free offset is at least 1 and never
    /// beyond the capacity, and every offset fits in 32 bits.
    pub closed spec fn wf(&self) -> bool {
        &&& 1 <= self.allocated
        &&& self.allocated <= self.data@.len()
        &&& self.data@.len() <= u32::MAX
    }

    /// The view is as long as the capacity.
    pub proof fn lemma_view_len(&self)
        ensures
            self@.len() == self.spec_capacity(),
    {
    }

    /// What the invariant says, over the public names.
    pub proof fn lemma_wf(&self)
        requires
            self.wf(),
        ensures
            1 <= self.spec_size() <= self.spec_capacity() <= u32::MAX,
            self@.len() == self.spec_capacity(),
    {
    }

    /// A zeroed arena of `capacity` bytes (at least one byte, for the nil
    /// offset).
    pub fn new(capacity: u32) -> (arena: Arena)
        ensures
            arena.wf(),
            arena.spec_size() == 1,
            arena.spec_capacity() == if capacity == 0 { 1 } else { capacity as nat },
            forall|i: int| 0 <= i < arena@.len() ==> arena@[i] == 0u8,
    {
        let cap: usize = if capacity == 0 { 1 } else { capacity as usize };
        let data: Vec<u8> = vec![0u8; cap];
        Arena { data, allocated: 1 }
    }

    /// An arena over the bytes given, of which `allocated` count as taken.
    pub fn from_parts(data: Vec<u8>, allocated: u64) -> (arena: Arena)
        requires
            1 <= allocated <= data@.len() <= u32::MAX,
        ensures
            arena.wf(),
            arena@ == data@,
            arena.spec_size() == allocated,
            arena.spec_capacity() == data@.len(),
    {
        Arena { data, allocated }
    }

    /// The number of bytes allocated so far (the next free offset).
    pub fn size(&self) -> (n: usize)
        requires
            self.wf(),
        ensures
            n == self.spec_size(),
    {
        self.allocated as usize
    }

    /// The capacity of the arena in bytes.
    pub fn capacity(&self) -> (n: usize)
        ensures
            n == self.spec_capacity(),
    {
        self.data.len()
    }

    /// The number of bytes that are still free.
    pub fn remaining(&self) -> (n: usize)
        requires
            self.wf(),
        ensures
            n == self.spec_capacity() - self.spec_size(),
    {
        self.data.len() - self.allocated as usize
    }

    /// Takes `size` bytes at alignment `align` and keeps `overflow` bytes of
    /// reserve free behind them. On success returns the aligned offset and
    /// the number of bytes by which the arena advanced. On failure nothing
    /// changes.
    pub fn allocate(&mut self, size: u32, align: u32, overflow: u32) -> (r: Result<
        (u32, u32),
        ArenaError,
    >)
        requires
            old(self).wf(),
            align >= 1,
        ensures
            final(self).wf(),
            final(self)@ == old(self)@,
            final(self).spec_capacity() == old(self).spec_capacity(),
            r is Ok <==> alloc_fits(
                old(self).spec_size(),
                old(self).spec_capacity(),
                size as nat,
                align as nat,
                overflow as nat,
            ),
            r matches Ok((offset, padded)) ==> {
                &&& padded == alloc_padded(size as nat, align as nat)
                &&& offset == alloc_offset(old(self).spec_size(), size as nat, align as nat)
                &&& final(self).spec_size() == old(self).spec_size() + padded
                &&& old(self).spec_size() <= offset
                &&& offset + size <= final(self).spec_size()
                &&& offset as int % align as int == 0
            },
            r matches Err(e) ==> {
                &&& final(self).spec_size() == old(self).spec_size()
                &&& e == (ArenaError::InsufficientSpace {
                    requested: (size + align - 1 + overflow) as u64,
                    remaining: (old(self).spec_capacity() - old(self).spec_size()) as u64,
                })
            },
    {
        let cap: u64 = self.data.len() as u64;
        let padded: u64 = size as u64 + align as u64 - 1;
        let new_size: u64 = self.allocated + padded;
        if new_size + overflow as u64 > cap {
            return Err(
                ArenaError::InsufficientSpace {
                    requested: padded + overflow as u64,
                    remaining: cap - self.allocated,
                },
            );
        }
        let start: u64 = new_size - size as u64;
        let offset: u64 = start - start % (align as u64);
        proof {
            let s = start as int;
            let a = align as int;
            assert(0 <= s % a < a) by (nonlinear_arith)
                requires
                    a >= 1,
                    s >= 0,
            ;
            assert((s - s % a) % a == 0) by (nonlinear_arith)
                requires
                    a >= 1,
                    s >= 0,
            ;
        }
        self.allocated = new_size;
        Ok((offset as u32, padded as u32))
    }

    /// The `size` bytes at `offset`; the empty slice for the nil offset.
    pub fn get_bytes(&self, offset: usize, size: usize) -> (bytes: &[u8])
        requires
            offset != 0 ==> offset + size <= self.spec_capacity(),
        ensures
            bytes@ == if offset == 0 {
                Seq::<u8>::empty()
            } else {
                self@.subrange(offset as int, offset + size)
            },
    {
        let _cap: usize = self.data.len();
        if offset == 0 {
            slice_subrange(self.data.as_slice(), 0, 0)
        } else {
            slice_subrange(self.data.as_slice(), offset, offset + size)
        }
    }

    /// All bytes of the region.
    pub fn as_bytes(&self) -> (bytes: &[u8])
        ensures
            bytes@ == self@,
    {
        self.data.as_slice()
    }

    /// The byte at `offset`.
    pub fn get_byte(&self, offset: usize) -> (b: u8)
        requires
            offset < self.spec_capacity(),
        ensures
            b == self@[offset as int],
    {
        self.data[offset]
    }

    /// Copies `src` into the arena at `offset`.
    pub fn put_bytes(&mut self, offset: usize, src: &[u8])
        requires
            offset + src@.len() <= old(self).spec_capacity(),
        ensures
            final(self)@.len() == old(self)@.len(),
            forall|i: int|
                0 <= i < old(self)@.len() ==> (#[trigger] final(self)@[i]) == if offset <= i < offset
                    + src@.len() {
                    src@[i - offset]
                } else {
                    old(self)@[i]
                },
            final(self).spec_size() == old(self).spec_size(),
            final(self).spec_capacity() == old(self).spec_capacity(),
            old(self).wf() ==> final(self).wf(),
    {
        let _cap: usize = self.data.len();
        let n: usize = src.len();
        let mut k: usize = 0;
        while k < n
            invariant
                n == src@.len(),
                k <= n,
                offset + n <= self.data@.len() <= usize::MAX,
                self.data@.len() == old(self).data@.len(),
                self.allocated == old(self).allocated,
                forall|i: int|
                    0 <= i < self.data@.len() ==> #[trigger] self.data@[i] == if offset <= i
                        < offset + k {
                        src@[i - offset]
                    } else {
                        old(self).data@[i]
                    },
            decreases n - k,
        {
            self.data.set(offset + k, src[k]);
            k = k + 1;
        }
    }

    /// Reads the little-endian 32-bit integer at `offset`.
    pub fn load_u32(&self, offset: usize) -> (x: u32)
        requires
            offset + 4 <= self.spec_capacity(),
        ensures
            x == spec_u32_le(self@, offset as int),
    {
        let _cap: usize = self.data.len();
        reveal(spec_u32_le);
        let b0: u32 = self.data[offset] as u32;
        let b1: u32 = self.data[offset + 1] as u32;
        let b2: u32 = self.data[offset + 2] as u32;
        let b3: u32 = self.data[offset + 3] as u32;
        b0 + b1 * 0x100 + b2 * 0x1_0000 + b3 * 0x100_0000
    }

    /// Writes `x` as a little-endian 32-bit integer at `offset`.
    pub fn store_u32(&mut self, offset: usize, x: u32)
        requires
            offset + 4 <= old(self).spec_capacity(),
        ensures
            final(self)@.len() == old(self)@.len(),
            spec_u32_le(final(self)@, offset as int) == x,
            forall|i: int|
                0 <= i < old(self)@.len() && !(offset <= i < offset + 4) ==> (#[trigger] final(self)@[i]) == old(
                    self,
                )@[i],
            final(self).spec_size() == old(self).spec_size(),
            final(self).spec_capacity() == old(self).spec_capacity(),
            old(self).wf() ==> final(self).wf(),
    {
        let _cap: usize = self.data.len();
        let q1: u32 = x / 0x100;
        let q2: u32 = q1 / 0x100;
        let q3: u32 = q2 / 0x100;
        let b0: u8 = (x % 0x100) as u8;
        let b1: u8 = (q1 % 0x100) as u8;
        let b2: u8 = (q2 % 0x100) as u8;
        let b3: u8 = q3 as u8;
        assert(x == b0 + b1 * 0x100 + b2 * 0x1_0000 + b3 * 0x100_0000);
        self.data.set(offset, b0);
        self.data.set(offset + 1, b1);
        self.data.set(offset + 2, b2);
        self.data.set(offset + 3, b3);
        proof {
            reveal(spec_u32_le);
        }
    }

    /// Reads the little-endian 64-bit integer at `offset`.
    pub fn load_u64(&self, offset: usize) -> (x: u64)
        requires
            offset + 8 <= self.spec_capacity(),
        ensures
            x == spec_u64_le(self@, offset as int),
    {
        let _cap: usize = self.data.len();
        reveal(spec_u64_le);
        let lo: u64 = self.load_u32(offset) as u64;
        let hi: u64 = self.load_u32(offset + 4) as u64;
        lo + hi * 0x1_0000_0000
    }

    /// Writes `x` as a little-endian 64-bit integer at `offset`.
    pub fn store_u64(&mut self, offset: usize, x: u64)
        requires
            offset + 8 <= old(self).spec_capacity(),
        ensures
            final(self)@.len() == old(self)@.len(),
            spec_u64_le(final(self)@, offset as int) == x,
            forall|i: int|
                0 <= i < old(self)@.len() && !(offset <= i < offset + 8) ==> (#[trigger] final(self)@[i]) == old(
                    self,
                )@[i],
            final(self).spec_size() == old(self).spec_size(),
            final(self).spec_capacity() == old(self).spec_capacity(),
            old(self).wf() ==> final(self).wf(),
    {
        let _cap: usize = self.data.len();
        let ghost b0 = self.data@;
        self.store_u32(offset, (x % 0x1_0000_0000) as u32);
        let ghost b1 = self.data@;
        self.store_u32(offset + 4, (x / 0x1_0000_0000) as u32);
        proof {
            reveal(spec_u64_le);
            reveal(spec_u32_le);
            let b2 = self.data@;
            assert(b2[offset as int] == b1[offset as int]);
            assert(b2[offset + 1] == b1[offset + 1]);
            assert(b2[offset + 2] == b1[offset + 2]);
            assert(b2[offset + 3] == b1[offset + 3]);
        }
    }

    /// Forgets every allocation: the next free offset is 1 again. The bytes
    /// stay as they are.
    pub fn reset(&mut self)
        requires
            old(self).wf(),
        ensures
            final(self).wf(),
            final(self).spec_size() == 1,
            final(self)@ == old(self)@,
            final(self).spec_capacity() == old(self).spec_capacity(),
    {
        self.allocated = 1;
    }
}

} // verus!
