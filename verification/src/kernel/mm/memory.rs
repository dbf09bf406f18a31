//! Physical memory as the page tables see it: consecutive frames of 512
//! 64-bit entries each.
use vstd::prelude::*;

verus! {

use super::address::{PhysAddr, PhysPageNum, PPN_MASK, PTE_PER_PAGE};
use crate::kernel::config::PAGE_SIZE;

/// The frames `[base, base + frames)`, their entries stored frame after frame.
pub struct PhysMemory {
    base: usize,
    frames: usize,
    words: Vec<u64>,
}

proof fn lemma_slot_bound(p: int, i: int, n: int)
    by (nonlinear_arith)
    requires
        0 <= p < n,
        0 <= i < 512,
    ensures
        0 <= p * 512 + i < n * 512,
{
}

proof fn lemma_slot_unique(p: int, i: int, q: int, j: int)
    by (nonlinear_arith)
    requires
        0 <= p,
        0 <= q,
        0 <= i < 512,
        0 <= j < 512,
        p * 512 + i == q * 512 + j,
    ensures
        p == q,
        i == j,
{
}

proof fn lemma_byte_update(w: u64, v: u64, s: u64, t: u64)
    by (bit_vector)
    requires
        v < 256,
        s < 64,
        t < 64,
        s % 8 == 0,
        t % 8 == 0,
    ensures
        (((w & !(0xffu64 << s)) | (v << s)) >> s) & 0xffu64 == v,
        s != t ==> (((w & !(0xffu64 << s)) | (v << s)) >> t) & 0xffu64 == (w >> t) & 0xffu64,
{
}

/// The frame that holds byte `pa`.
pub open spec fn byte_frame(pa: int) -> int {
    pa / (PAGE_SIZE as int)
}

/// The entry of its frame that holds byte `pa`.
pub open spec fn byte_entry(pa: int) -> int {
    (pa % (PAGE_SIZE as int)) / 8
}

/// The shift of byte `pa` inside its entry (entries are little-endian).
pub open spec fn byte_shift(pa: int) -> int {
    (pa % 8) * 8
}

/// A byte's frame, entry and shift determine it.
proof fn lemma_byte_place(q: int, p: int)
    requires
        0 <= q,
        0 <= p,
        byte_frame(q) == byte_frame(p),
        byte_entry(q) == byte_entry(p),
        byte_shift(q) == byte_shift(p),
    ensures
        q == p,
{
    vstd::arithmetic::div_mod::lemma_fundamental_div_mod(q, 4096);
    vstd::arithmetic::div_mod::lemma_fundamental_div_mod(p, 4096);
    vstd::arithmetic::div_mod::lemma_fundamental_div_mod(q % 4096, 8);
    vstd::arithmetic::div_mod::lemma_fundamental_div_mod(p % 4096, 8);
    vstd::arithmetic::div_mod::lemma_mod_mod(q, 8, 512);
    vstd::arithmetic::div_mod::lemma_mod_mod(p, 8, 512);
}

impl PhysMemory {
    /// The first frame.
    pub closed spec fn first(&self) -> int {
        self.base as int
    }

    /// The number of frames.
    pub closed spec fn count(&self) -> int {
        self.frames as int
    }

    /// Whether frame `ppn` is part of this memory.
    pub open spec fn has(&self, ppn: int) -> bool {
        self.first() <= ppn < self.first() + self.count()
    }

    /// Entry `i` of frame `ppn`.
    pub closed spec fn entry(&self, ppn: int, i: int) -> u64 {
        self.words@[(ppn - self.base) * 512 + i]
    }

    /// Every frame holds 512 entries, and every frame number fits in the
    /// page number field of an entry.
    pub closed spec fn wf(&self) -> bool {
        &&& self.words.len() == self.frames * 512
        &&& self.base + self.frames <= PPN_MASK + 1
    }

    pub proof fn lemma_has_fits(&self, ppn: int)
        requires
            self.wf(),
            self.has(ppn),
        ensures
            0 <= ppn <= PPN_MASK,
    {
    }

    /// The frames `[base, base + frames)`, all entries zero.
    pub fn new(base: PhysPageNum, frames: usize) -> (m: Self)
        requires
            base.0 + frames <= PPN_MASK + 1,
            frames * 512 <= usize::MAX,
        ensures
            m.wf(),
            m.first() == base.0,
            m.count() == frames,
            forall|p: int, i: int| m.has(p) && 0 <= i < 512 ==> #[trigger] m.entry(p, i) == 0,
    {
        let n: usize = frames * PTE_PER_PAGE;
        let mut words: Vec<u64> = Vec::new();
        while words.len() < n
            invariant
                words.len() <= n,
                forall|k: int| 0 <= k < words.len() ==> words@[k] == 0,
            decreases n - words.len(),
        {
            words.push(0);
        }
        let m = PhysMemory { base: base.0, frames, words };
        proof {
            assert forall|p: int, i: int| m.has(p) && 0 <= i < 512 implies #[trigger] m.entry(p, i) == 0 by {
                lemma_slot_bound(p - base.0, i, frames as int);
            }
        }
        m
    }

    /// Whether frame `ppn` is part of this memory.
    pub fn holds(&self, ppn: PhysPageNum) -> (r: bool)
        ensures
            r == self.has(ppn.0 as int),
    {
        self.base <= ppn.0 && ppn.0 - self.base < self.frames
    }

    /// Entry `i` of frame `ppn`.
    pub fn read(&self, ppn: PhysPageNum, i: usize) -> (e: u64)
        requires
            self.wf(),
            self.has(ppn.0 as int),
            i < 512,
        ensures
            e == self.entry(ppn.0 as int, i as int),
    {
        proof {
            lemma_slot_bound(ppn.0 - self.base, i as int, self.frames as int);
        }
        self.words[(ppn.0 - self.base) * PTE_PER_PAGE + i]
    }

    /// Sets entry `i` of frame `ppn` to `e`; every other entry stays.
    pub fn write(&mut self, ppn: PhysPageNum, i: usize, e: u64)
        requires
            old(self).wf(),
            old(self).has(ppn.0 as int),
            i < 512,
        ensures
            final(self).wf(),
            final(self).first() == old(self).first(),
            final(self).count() == old(self).count(),
            forall|q: int, j: int|
                old(self).has(q) && 0 <= j < 512 ==> #[trigger] final(self).entry(q, j) == if q
                    == ppn.0 && j == i {
                    e
                } else {
                    old(self).entry(q, j)
                },
    {
        proof {
            lemma_slot_bound(ppn.0 - self.base, i as int, self.frames as int);
        }
        let k = (ppn.0 - self.base) * PTE_PER_PAGE + i;
        self.words.set(k, e);
        proof {
            assert forall|q: int, j: int| old(self).has(q) && 0 <= j < 512 implies #[trigger] final(self).entry(q, j) == if q == ppn.0 && j == i {
                e
            } else {
                old(self).entry(q, j)
            } by {
                lemma_slot_bound(q - self.base, j, self.frames as int);
                if (q - self.base) * 512 + j == k {
                    lemma_slot_unique(q - self.base, j, ppn.0 - self.base, i as int);
                }
            }
        }
    }

    /// Sets every entry of frame `ppn` to zero; the other frames stay.
    pub fn clear(&mut self, ppn: PhysPageNum)
        requires
            old(self).wf(),
            old(self).has(ppn.0 as int),
        ensures
            final(self).wf(),
            final(self).first() == old(self).first(),
            final(self).count() == old(self).count(),
            forall|q: int, j: int|
                old(self).has(q) && 0 <= j < 512 ==> #[trigger] final(self).entry(q, j) == if q
                    == ppn.0 {
                    0
                } else {
                    old(self).entry(q, j)
                },
    {
        let mut i: usize = 0;
        while i < PTE_PER_PAGE
            invariant
                i <= 512,
                self.wf(),
                self.has(ppn.0 as int),
                self.first() == old(self).first(),
                self.count() == old(self).count(),
                forall|q: int, j: int|
                    old(self).has(q) && 0 <= j < 512 ==> #[trigger] self.entry(q, j) == if q
                        == ppn.0 && j < i {
                        0
                    } else {
                        old(self).entry(q, j)
                    },
            decreases 512 - i,
        {
            self.write(ppn, i, 0);
            i = i + 1;
        }
    }

    /// Byte `pa` of physical memory.
    pub open spec fn byte_at(&self, pa: int) -> u8 {
        ((self.entry(byte_frame(pa), byte_entry(pa)) >> (byte_shift(pa) as u64)) & 0xffu64) as u8
    }

    /// Reads byte `pa`.
    pub fn read_byte(&self, pa: PhysAddr) -> (b: u8)
        requires
            self.wf(),
            self.has((pa.0 / PAGE_SIZE) as int),
        ensures
            b == self.byte_at(pa.0 as int),
    {
        let off = pa.0 % PAGE_SIZE;
        let w = self.read(PhysPageNum(pa.0 / PAGE_SIZE), off / 8);
        proof {
            assert(off % 8 == pa.0 % 8);
        }
        ((w >> (((off % 8) * 8) as u64)) & 0xff) as u8
    }

    /// Sets byte `pa` to `v`; every other byte stays, and so does every
    /// entry but the one that holds the byte.
    #[verifier::spinoff_prover]
    #[verifier::rlimit(40)]
    pub fn write_byte(&mut self, pa: PhysAddr, v: u8)
        requires
            old(self).wf(),
            old(self).has((pa.0 / PAGE_SIZE) as int),
        ensures
            final(self).wf(),
            final(self).first() == old(self).first(),
            final(self).count() == old(self).count(),
            forall|q: int|
                0 <= q && old(self).has(q / (PAGE_SIZE as int)) ==> #[trigger] final(self).byte_at(q)
                    == if q == pa.0 {
                    v
                } else {
                    old(self).byte_at(q)
                },
            forall|p: int, j: int|
                old(self).has(p) && 0 <= j < 512 && !(p == byte_frame(pa.0 as int) && j == byte_entry(
                    pa.0 as int,
                )) ==> #[trigger] final(self).entry(p, j) == old(self).entry(p, j),
    {
        let ppn = PhysPageNum(pa.0 / PAGE_SIZE);
        let off = pa.0 % PAGE_SIZE;
        let idx = off / 8;
        let sh = ((off % 8) * 8) as u64;
        let w = self.read(ppn, idx);
        let nw = (w & !(0xffu64 << sh)) | ((v as u64) << sh);
        self.write(ppn, idx, nw);
        proof {
            vstd::arithmetic::div_mod::lemma_mod_mod(pa.0 as int, 8, 512);
            assert(off % 8 == pa.0 % 8);
            assert forall|q: int|
                0 <= q && old(self).has(q / (PAGE_SIZE as int)) implies #[trigger] self.byte_at(q)
                    == if q == pa.0 {
                    v
                } else {
                    old(self).byte_at(q)
                } by {
                let qi = byte_entry(q);
                let qs = byte_shift(q);
                assert(0 <= qi < 512);
                assert(0 <= qs < 64);
                assert(qs % 8 == 0);
                if byte_frame(q) == ppn.0 && qi == idx {
                    lemma_byte_update(w, v as u64, sh, qs as u64);
                    if q != pa.0 && qs == sh {
                        lemma_byte_place(q, pa.0 as int);
                    }
                }
            }
        }
    }
}

} // verus!
