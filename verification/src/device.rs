//! The block device the store writes to, modelled in memory.
//!
//! The device is a row of equally sized regions addressed by id; reads and
//! writes move whole byte ranges at aligned offsets. An embedding that backs
//! the store with a file or raw device supplies the same operations over it
//! and keeps the contracts below, which are what the store relies on: a read
//! returns the bytes most recently written at that range.

use vstd::prelude::*;
use crate::code::{read_bytes, write_bytes};

verus! {

/// A sequence of `len` zero bytes.
pub open spec fn spec_zeros(len: nat) -> Seq<u8> {
    Seq::new(len, |i: int| 0u8)
}

/// A vector of `len` zero bytes.
pub fn zeros_vec(len: usize) -> (r: Vec<u8>)
    ensures
        r@ == spec_zeros(len as nat),
{
    let mut r: Vec<u8> = Vec::new();
    let mut b: usize = 0;
    while b < len
        invariant
            b <= len,
            r@ == spec_zeros(b as nat),
        decreases len - b,
    {
        r.push(0);
        assert(r@ =~= spec_zeros((b + 1) as nat));
        b = b + 1;
    }
    r
}

/// A memory-backed block device of equally sized regions.
pub struct Device {
    align: usize,
    region_size: usize,
    regions: Vec<Vec<u8>>,
}

impl Device {
    /// The bytes of every region.
    pub closed spec fn view(&self) -> Seq<Seq<u8>> {
        self.regions@.map_values(|r: Vec<u8>| r@)
    }

    /// The alignment every offset and length respects.
    pub closed spec fn spec_align(&self) -> usize {
        self.align
    }

    /// Bytes per region.
    pub closed spec fn spec_region_size(&self) -> usize {
        self.region_size
    }

    /// Geometry invariant: positive alignment dividing the region size, and
    /// every region exactly region-sized.
    pub closed spec fn wf(&self) -> bool {
        &&& 0 < self.align
        &&& self.align <= self.region_size
        &&& self.region_size % self.align == 0
        &&& self.regions@.len() <= u32::MAX
        &&& forall|i: int| 0 <= i < self.regions@.len() ==> self.regions@[i]@.len() == self.region_size
    }

    /// What geometry well-formedness guarantees, for use outside the module.
    pub proof fn lemma_wf(&self)
        requires
            self.wf(),
        ensures
            0 < self.spec_align(),
            self.spec_align() <= self.spec_region_size(),
            self.spec_region_size() % self.spec_align() == 0,
            self@.len() <= u32::MAX,
            forall|i: int|
                0 <= i < self@.len() ==> (#[trigger] self@[i]).len() == self.spec_region_size(),
    {
    }

    /// A zeroed device of `region_count` regions.
    pub fn new(align: usize, region_size: usize, region_count: u32) -> (r: Device)
        requires
            0 < align <= region_size,
            region_size % align == 0,
        ensures
            r.wf(),
            r.spec_align() == align,
            r.spec_region_size() == region_size,
            r@.len() == region_count,
            forall|i: int| 0 <= i < region_count ==> r@[i] == spec_zeros(region_size as nat),
    {
        let mut regions: Vec<Vec<u8>> = Vec::new();
        let mut i: u32 = 0;
        while i < region_count
            invariant
                i <= region_count,
                regions@.len() == i,
                forall|j: int|
                    0 <= j < i ==> regions@[j]@ == spec_zeros(region_size as nat),
            decreases region_count - i,
        {
            let mut region: Vec<u8> = Vec::new();
            let mut b: usize = 0;
            while b < region_size
                invariant
                    b <= region_size,
                    region@ == spec_zeros(b as nat),
                decreases region_size - b,
            {
                region.push(0);
                assert(region@ =~= spec_zeros((b + 1) as nat));
                b = b + 1;
            }
            regions.push(region);
            i = i + 1;
        }
        let r = Device { align, region_size, regions };
        proof {
            assert(forall|i: int|
                0 <= i < region_count ==> r@[i] == spec_zeros(region_size as nat));
        }
        r
    }

    /// Number of regions.
    pub fn region_count(&self) -> (n: u32)
        requires
            self.wf(),
        ensures
            n == self@.len(),
    {
        self.regions.len() as u32
    }

    /// The alignment every offset and length respects.
    pub fn align(&self) -> (n: usize)
        ensures
            n == self.spec_align(),
    {
        self.align
    }

    /// Bytes per region.
    pub fn region_size(&self) -> (n: usize)
        ensures
            n == self.spec_region_size(),
    {
        self.region_size
    }

    /// Writes a whole region image, consuming the buffer.
    pub fn write_region(&mut self, region_id: u32, buf: Vec<u8>)
        requires
            old(self).wf(),
            region_id < old(self)@.len(),
            buf@.len() == old(self).spec_region_size(),
        ensures
            final(self).wf(),
            final(self).spec_align() == old(self).spec_align(),
            final(self).spec_region_size() == old(self).spec_region_size(),
            final(self)@.len() == old(self)@.len(),
            final(self)@[region_id as int] == buf@,
            forall|i: int|
                0 <= i < old(self)@.len() && i != region_id ==> final(self)@[i] == old(self)@[i],
    {
        let ghost pre = self@;
        self.regions.set(region_id as usize, buf);
        proof {
            assert(self@[region_id as int] == buf@);
            assert(forall|i: int| 0 <= i < pre.len() && i != region_id ==> self@[i] == pre[i]);
        }
    }

    /// Reads `len` bytes at `offset` within a region.
    pub fn read(&self, region_id: u32, offset: usize, len: usize) -> (r: Vec<u8>)
        requires
            self.wf(),
            region_id < self@.len(),
            offset + len <= self.spec_region_size(),
        ensures
            r@ == self@[region_id as int].subrange(offset as int, offset + len),
    {
        let region: &Vec<u8> = &self.regions[region_id as usize];
        read_bytes(region.as_slice(), offset, len)
    }

    /// Overwrites one aligned block within a region with zeroes.
    pub fn zero_block(&mut self, region_id: u32, offset: usize)
        requires
            old(self).wf(),
            region_id < old(self)@.len(),
            offset + old(self).spec_align() <= old(self).spec_region_size(),
        ensures
            final(self).wf(),
            final(self).spec_align() == old(self).spec_align(),
            final(self).spec_region_size() == old(self).spec_region_size(),
            final(self)@.len() == old(self)@.len(),
            final(self)@[region_id as int] == old(self)@[region_id as int].take(offset as int)
                + spec_zeros(old(self).spec_align() as nat) + old(self)@[region_id as int].skip(
                offset + old(self).spec_align(),
            ),
            forall|i: int|
                0 <= i < old(self)@.len() && i != region_id ==> final(self)@[i] == old(self)@[i],
    {
        let align = self.align;
        let mut zeros: Vec<u8> = Vec::new();
        let mut b: usize = 0;
        while b < align
            invariant
                b <= align,
                zeros@ == spec_zeros(b as nat),
            decreases align - b,
        {
            zeros.push(0);
            assert(zeros@ =~= spec_zeros((b + 1) as nat));
            b = b + 1;
        }
        let region: &Vec<u8> = &self.regions[region_id as usize];
        let mut image = read_bytes(region.as_slice(), 0, self.region_size);
        write_bytes(&mut image, offset, zeros.as_slice());
        proof {
            assert(image@ =~= old(self)@[region_id as int].take(offset as int) + spec_zeros(
                align as nat,
            ) + old(self)@[region_id as int].skip(offset + align));
        }
        self.regions.set(region_id as usize, image);
    }
}

} // verus!
