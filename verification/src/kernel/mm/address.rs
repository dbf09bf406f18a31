//! Sv39 addresses and page numbers.
use vstd::prelude::*;

verus! {

use crate::kernel::config::PAGE_SIZE;

/// Bits of a physical page number in an Sv39 page table entry.
pub const PPN_WIDTH: u64 = 44;

/// Mask of the low `PPN_WIDTH` bits.
pub const PPN_MASK: u64 = 0xfff_ffff_ffff;

/// Bits of a virtual page number.
pub const VPN_WIDTH: usize = 27;

/// Entries of one page table page.
pub const PTE_PER_PAGE: usize = 512;

#[derive(Clone, Copy, Debug, PartialEq, Eq, Structural)]
pub struct PhysPageNum(pub usize);

#[derive(Clone, Copy, Debug, PartialEq, Eq, Structural)]
pub struct VirtPageNum(pub usize);

#[derive(Clone, Copy, Debug, PartialEq, Eq, Structural)]
pub struct VirtAddr(pub usize);

#[derive(Clone, Copy, Debug, PartialEq, Eq, Structural)]
pub struct PhysAddr(pub usize);

/// The three page table indexes of a virtual page number, root level first.
pub open spec fn vpn_indexes(vpn: int) -> Seq<int> {
    seq![(vpn / (512int * 512int)) % 512, (vpn / 512int) % 512, vpn % 512]
}

impl PhysAddr {
    /// The frame that holds this address.
    pub fn floor(&self) -> (r: PhysPageNum)
        ensures
            r.0 == self.0 / PAGE_SIZE,
    {
        PhysPageNum(self.0 / PAGE_SIZE)
    }

    /// The first frame that starts at or above this address.
    pub fn ceil(&self) -> (r: PhysPageNum)
        requires
            self.0 + PAGE_SIZE - 1 <= usize::MAX,
        ensures
            r.0 == (self.0 + PAGE_SIZE - 1) / PAGE_SIZE as int,
    {
        PhysPageNum((self.0 + (PAGE_SIZE - 1)) / PAGE_SIZE)
    }
}

impl VirtAddr {
    /// The page that holds this address.
    pub fn floor(&self) -> (r: VirtPageNum)
        ensures
            r.0 == self.0 / PAGE_SIZE,
    {
        VirtPageNum(self.0 / PAGE_SIZE)
    }

    /// The offset of this address inside its page.
    pub fn page_offset(&self) -> (r: usize)
        ensures
            r == self.0 % PAGE_SIZE,
            r < PAGE_SIZE,
    {
        self.0 % PAGE_SIZE
    }
}

impl VirtPageNum {
    /// The index into each of the three page table levels, root level first.
    pub fn indexes(&self) -> (r: [usize; 3])
        ensures
            r@.len() == 3,
            forall|i: int| 0 <= i < 3 ==> #[trigger] r@[i] == vpn_indexes(self.0 as int)[i],
            forall|i: int| 0 <= i < 3 ==> #[trigger] r@[i] < PTE_PER_PAGE,
    {
        let mut vpn = self.0;
        let mut idx: [usize; 3] = [0; 3];
        let mut i: usize = 3;
        while i > 0
            invariant
                0 <= i <= 3,
                vpn == self.0 as int / pow512(3 - i),
                forall|j: int| i <= j < 3 ==> #[trigger] idx@[j] == (self.0 as int / pow512(2 - j)) % 512,
            decreases i,
        {
            i = i - 1;
            idx[i] = vpn % 512;
            proof {
                assert(pow512(2 - i) > 0) by {
                    assert(pow512(0) == 1);
                    assert(pow512(1) == 512);
                    assert(pow512(2) == 512 * 512);
                }
                vstd::arithmetic::div_mod::lemma_div_denominator(self.0 as int, pow512(2 - i), 512);
                assert(pow512(2 - i) * 512 == pow512(3 - i));
            }
            vpn = vpn / 512;
        }
        proof {
            assert(pow512(0) == 1);
            assert(pow512(1) == 512);
            assert(pow512(2) == 512 * 512);
        }
        idx
    }

    /// Moves to the next page.
    pub fn step(&mut self)
        requires
            old(self).0 < usize::MAX,
        ensures
            final(self).0 == old(self).0 + 1,
    {
        self.0 = self.0 + 1;
    }
}

pub open spec fn pow512(k: int) -> int
    decreases k,
{
    if k <= 0 {
        1
    } else {
        512 * pow512(k - 1)
    }
}

} // verus!
